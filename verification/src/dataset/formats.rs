//! Files of a dataset: images, masks, depth sidecars and point clouds by name.

use crate::text;
use vstd::prelude::*;

verus! {

/// A path, split into its directories and, last, the name of the file.
pub struct FilePath {
    pub parts: Vec<String>,
}

impl FilePath {
    /// The directories and the name of the file.
    pub open spec fn names(&self) -> Seq<Seq<char>> {
        Seq::new(self.parts@.len(), |i: int| self.parts@[i]@)
    }
}

/// Why a dataset is not used.
#[derive(Clone, Copy, Debug, PartialEq, Eq, Structural)]
pub enum DatasetError {
    /// No known format.
    FormatNotSupported,
    /// The format is known, but every image is missing or filtered out.
    NoTrainViews,
}

/// A dataset is used if its format is known and it has views to train on.
pub fn accept_dataset(recognized: bool, train_views: usize) -> (r: Result<(), DatasetError>)
    ensures
        match r {
            Ok(()) => recognized && train_views > 0,
            Err(DatasetError::FormatNotSupported) => !recognized,
            Err(DatasetError::NoTrainViews) => recognized && train_views == 0,
        },
{
    if !recognized {
        Err(DatasetError::FormatNotSupported)
    } else if train_views == 0 {
        Err(DatasetError::NoTrainViews)
    } else {
        Ok(())
    }
}

/// `c` without distinction between upper and lower case of ASCII letters.
pub open spec fn folded(c: char) -> int {
    if 65 <= c as int <= 90 {
        c as int + 32
    } else {
        c as int
    }
}

/// Names are the same, but for the case of ASCII letters.
pub open spec fn same_name(a: Seq<char>, b: Seq<char>) -> bool {
    a.len() == b.len() && forall|i: int| 0 <= i < a.len() ==> folded(#[trigger] a[i]) == folded(b[i])
}

/// The place of the last dot of `name` before `n`, or `-1`.
pub open spec fn last_dot(name: Seq<char>, n: int) -> int
    decreases n,
{
    if n <= 0 {
        -1
    } else if name[n - 1] == '.' {
        n - 1
    } else {
        last_dot(name, n - 1)
    }
}

/// The name without its extension. A dot at the start begins no extension.
pub open spec fn stem(name: Seq<char>) -> Seq<char> {
    let d = last_dot(name, name.len() as int);
    if d <= 0 {
        name
    } else {
        name.take(d)
    }
}

/// The extension of a name, if it has one.
pub open spec fn extension(name: Seq<char>) -> Option<Seq<char>> {
    let d = last_dot(name, name.len() as int);
    if d <= 0 {
        None
    } else {
        Some(name.skip(d + 1))
    }
}

fn fold(c: char) -> (r: u32)
    ensures
        r == folded(c),
{
    let v: u32 = c as u32;
    if 65 <= v && v <= 90 {
        v + 32
    } else {
        v
    }
}

fn is_same_name(a: &str, b: &str) -> (r: bool)
    ensures
        r == same_name(a@, b@),
{
    let n: usize = a.unicode_len();
    if n != b.unicode_len() {
        return false;
    }
    for i in 0..n
        invariant
            n == a@.len(),
            n == b@.len(),
            forall|k: int| 0 <= k < i ==> folded(#[trigger] a@[k]) == folded(b@[k]),
    {
        if fold(a.get_char(i)) != fold(b.get_char(i)) {
            return false;
        }
    }
    true
}

/// Split a name before its extension.
fn split_name(name: &str) -> (r: (&str, Option<&str>))
    ensures
        r.0@ == stem(name@),
        match r.1 {
            Some(e) => extension(name@) == Some(e@),
            None => extension(name@) is None,
        },
{
    let n: usize = name.unicode_len();
    let mut at: usize = n;
    while at > 0
        invariant
            n == name@.len(),
            at <= n,
            last_dot(name@, n as int) == last_dot(name@, at as int),
        decreases at,
    {
        if name.get_char(at - 1) == '.' {
            if at == 1 {
                return (name, None);
            }
            return (name.substring_char(0, at - 1), Some(name.substring_char(at, n)));
        }
        at -= 1;
    }
    (name, None)
}

/// `tail` is what `list` ends with.
pub open spec fn ends_with(list: Seq<Seq<char>>, tail: Seq<Seq<char>>) -> bool {
    tail.len() <= list.len() && list.skip(list.len() - tail.len()) == tail
}

/// The first directory or file called `masks` among the first `n`, or `n`.
pub open spec fn masks_place(names: Seq<Seq<char>>, n: int) -> int
    decreases names.len() - n,
{
    if n < 0 || n >= names.len() {
        names.len() as int
    } else if same_name(names[n], seq!['m', 'a', 's', 'k', 's']) {
        n
    } else {
        masks_place(names, n + 1)
    }
}

/// A mask is named like its image, with or without the image's extension or `.mask`, with
/// any extension of its own.
pub open spec fn is_mask_name(mask: Seq<char>, image: Seq<char>) -> bool {
    ||| same_name(stem(mask), image)
    ||| same_name(stem(mask), stem(image))
    ||| same_name(stem(mask), stem(image) + seq!['.', 'm', 'a', 's', 'k'])
}

/// `mask` is a mask of `image`: it is named like it, and the directories between `masks` and
/// the file are the last directories of the image.
pub open spec fn is_mask_of(mask: Seq<Seq<char>>, image: Seq<Seq<char>>) -> bool {
    let at = masks_place(mask, 0);
    &&& mask.len() > 0
    &&& is_mask_name(mask.last(), image.last())
    &&& at < mask.len() - 1
    &&& ends_with(image.drop_last(), mask.subrange(at + 1, mask.len() - 1))
}

/// `r` is the first of the files for which `holds`.
pub open spec fn is_first(files: Seq<FilePath>, holds: spec_fn(Seq<Seq<char>>) -> bool, r: Option<
    usize,
>) -> bool {
    match r {
        Some(i) => {
            &&& i < files.len()
            &&& holds(files[i as int].names())
            &&& forall|k: int| 0 <= k < i ==> !holds((#[trigger] files[k]).names())
        },
        None => forall|k: int| 0 <= k < files.len() ==> !holds((#[trigger] files[k]).names()),
    }
}

fn matches_mask_name(mask: &str, image: &str) -> (r: bool)
    ensures
        r == is_mask_name(mask@, image@),
{
    let (mask_stem, _) = split_name(mask);
    let (image_stem, _) = split_name(image);
    if is_same_name(mask_stem, image) || is_same_name(mask_stem, image_stem) {
        return true;
    }
    let mut with_mask = String::from_str(image_stem);
    proof {
        reveal_strlit(".mask");
        assert(".mask"@ =~= seq!['.', 'm', 'a', 's', 'k']);
    }
    with_mask.append(".mask");
    is_same_name(mask_stem, with_mask.as_str())
}

fn mask_of(mask: &FilePath, image: &FilePath) -> (r: bool)
    requires
        image.parts@.len() > 0,
    ensures
        r == is_mask_of(mask.names(), image.names()),
{
    let ghost mn = mask.names();
    let ghost im = image.names();
    let n: usize = mask.parts.len();
    let m: usize = image.parts.len();
    if n == 0 {
        return false;
    }
    assert(mn.last() == mask.parts@[n - 1]@);
    assert(im.last() == image.parts@[m - 1]@);
    if !matches_mask_name(mask.parts[n - 1].as_str(), image.parts[m - 1].as_str()) {
        return false;
    }
    proof {
        reveal_strlit("masks");
        assert("masks"@ =~= seq!['m', 'a', 's', 'k', 's']);
    }
    let mut at: usize = 0;
    let mut found: bool = false;
    while at < n && !found
        invariant
            mn == mask.names(),
            n == mn.len(),
            at <= n,
            "masks"@ == seq!['m', 'a', 's', 'k', 's'],
            masks_place(mn, 0) == masks_place(mn, at as int),
            found ==> at < n && masks_place(mn, 0) == at,
        decreases n - at + (if found { 0int } else { 1int }),
    {
        assert(mn[at as int] == mask.parts@[at as int]@);
        if is_same_name(mask.parts[at].as_str(), "masks") {
            found = true;
        } else {
            at += 1;
        }
    }
    if at >= n - 1 {
        return false;
    }
    let len: usize = n - 2 - at;
    let ghost sub = mn.subrange(at + 1, n - 1);
    let ghost dir = im.drop_last();
    if len > m - 1 {
        return false;
    }
    let from: usize = m - 1 - len;
    for k in 0..len
        invariant
            mn == mask.names(),
            im == image.names(),
            n == mask.parts@.len(),
            m == image.parts@.len(),
            sub == mn.subrange(at + 1, n - 1),
            dir == im.drop_last(),
            at + 2 + len == n,
            from + len == m - 1,
            masks_place(mn, 0) == at,
            forall|j: int| 0 <= j < k ==> dir[from + j] == #[trigger] sub[j],
    {
        assert(sub[k as int] == mask.parts@[at + 1 + k]@);
        assert(dir[from + k] == image.parts@[from + k]@);
        if !is_equal(mask.parts[at + 1 + k].as_str(), image.parts[from + k].as_str()) {
            proof {
                assert(dir.skip(from as int)[k as int] == dir[from + k]);
            }
            return false;
        }
    }
    assert(dir.skip(from as int) =~= sub);
    true
}

fn is_equal(a: &str, b: &str) -> (r: bool)
    ensures
        r <==> a@ == b@,
{
    let n: usize = a.unicode_len();
    if n != b.unicode_len() {
        return false;
    }
    for i in 0..n
        invariant
            n == a@.len(),
            n == b@.len(),
            forall|k: int| 0 <= k < i ==> #[trigger] a@[k] == b@[k],
    {
        if a.get_char(i) != b.get_char(i) {
            return false;
        }
    }
    assert(a@ =~= b@);
    true
}

/// Find the mask of an image.
pub fn find_mask_path(files: &Vec<FilePath>, image: &FilePath) -> (r: Option<usize>)
    requires
        image.parts@.len() > 0,
    ensures
        is_first(files@, |names: Seq<Seq<char>>| is_mask_of(names, image.names()), r),
{
    for i in 0..files.len()
        invariant
            image.parts@.len() > 0,
            forall|k: int|
                0 <= k < i ==> !is_mask_of((#[trigger] files@[k]).names(), image.names()),
    {
        if mask_of(&files[i], image) {
            return Some(i);
        }
    }
    None
}

/// `file` is the depth sidecar of `image`: a `.bin` file of the same stem, under a `depth`
/// or `depths` directory.
pub open spec fn is_depth_of(file: Seq<Seq<char>>, image: Seq<Seq<char>>) -> bool {
    &&& file.len() > 0
    &&& extension(file.last()) matches Some(e) && same_name(e, seq!['b', 'i', 'n'])
    &&& same_name(stem(file.last()), stem(image.last()))
    &&& exists|k: int| 0 <= k < file.len() && is_depth_dir(#[trigger] file[k])
}

pub open spec fn is_depth_dir(name: Seq<char>) -> bool {
    ||| same_name(name, seq!['d', 'e', 'p', 't', 'h'])
    ||| same_name(name, seq!['d', 'e', 'p', 't', 'h', 's'])
}

fn depth_of(file: &FilePath, image: &FilePath) -> (r: bool)
    requires
        image.parts@.len() > 0,
    ensures
        r == is_depth_of(file.names(), image.names()),
{
    let ghost names = file.names();
    let n: usize = file.parts.len();
    let m: usize = image.parts.len();
    if n == 0 {
        return false;
    }
    assert(names.last() == file.parts@[n - 1]@);
    assert(image.names().last() == image.parts@[m - 1]@);
    proof {
        reveal_strlit("bin");
        reveal_strlit("depth");
        reveal_strlit("depths");
        assert("bin"@ =~= seq!['b', 'i', 'n']);
        assert("depth"@ =~= seq!['d', 'e', 'p', 't', 'h']);
        assert("depths"@ =~= seq!['d', 'e', 'p', 't', 'h', 's']);
    }
    let (file_stem, file_ext) = split_name(file.parts[n - 1].as_str());
    let (image_stem, _) = split_name(image.parts[m - 1].as_str());
    let is_bin: bool = match file_ext {
        Some(e) => is_same_name(e, "bin"),
        None => false,
    };
    if !is_bin || !is_same_name(file_stem, image_stem) {
        return false;
    }
    for k in 0..n
        invariant
            names == file.names(),
            n == names.len(),
            "depth"@ == seq!['d', 'e', 'p', 't', 'h'],
            "depths"@ == seq!['d', 'e', 'p', 't', 'h', 's'],
            is_depth_of(names, image.names()) == (exists|k: int|
                0 <= k < names.len() && is_depth_dir(#[trigger] names[k])),
            forall|j: int| 0 <= j < k ==> !is_depth_dir(#[trigger] names[j]),
    {
        let part = file.parts[k].as_str();
        assert(names[k as int] == part@);
        if is_same_name(part, "depth") || is_same_name(part, "depths") {
            assert(is_depth_dir(names[k as int]));
            return true;
        }
    }
    false
}

/// Find the depth sidecar of an image.
pub fn find_depth_path(files: &Vec<FilePath>, image: &FilePath) -> (r: Option<usize>)
    requires
        image.parts@.len() > 0,
    ensures
        is_first(files@, |names: Seq<Seq<char>>| is_depth_of(names, image.names()), r),
{
    for i in 0..files.len()
        invariant
            image.parts@.len() > 0,
            forall|k: int|
                0 <= k < i ==> !is_depth_of((#[trigger] files@[k]).names(), image.names()),
    {
        if depth_of(&files[i], image) {
            return Some(i);
        }
    }
    None
}

/// `a` comes before `b` in the order of paths: at the first part where they differ `a` has
/// the one that sorts first, or `a` is where `b` begins.
pub open spec fn path_before(a: Seq<Seq<char>>, b: Seq<Seq<char>>) -> bool {
    ||| a.len() < b.len() && a == b.take(a.len() as int)
    ||| exists|i: int|
        {
            &&& 0 <= i < a.len()
            &&& i < b.len()
            &&& text::sorts_before(#[trigger] a[i], b[i])
            &&& a.take(i) == b.take(i)
        }
}

proof fn path_before_irreflexive(a: Seq<Seq<char>>)
    ensures
        !path_before(a, a),
{
    if path_before(a, a) {
        let i = choose|i: int|
            {
                &&& 0 <= i < a.len()
                &&& text::sorts_before(#[trigger] a[i], a[i])
            };
        text::sorts_before_irreflexive(a[i]);
    }
}

/// The order of paths is transitive.
pub proof fn path_before_trans(a: Seq<Seq<char>>, b: Seq<Seq<char>>, c: Seq<Seq<char>>)
    requires
        path_before(a, b),
        path_before(b, c),
    ensures
        path_before(a, c),
{
    let i = if a.len() < b.len() && a == b.take(a.len() as int) {
        a.len() as int
    } else {
        choose|i: int|
            {
                &&& 0 <= i < a.len()
                &&& i < b.len()
                &&& text::sorts_before(#[trigger] a[i], b[i])
                &&& a.take(i) == b.take(i)
            }
    };
    let j = if b.len() < c.len() && b == c.take(b.len() as int) {
        b.len() as int
    } else {
        choose|j: int|
            {
                &&& 0 <= j < b.len()
                &&& j < c.len()
                &&& text::sorts_before(#[trigger] b[j], c[j])
                &&& b.take(j) == c.take(j)
            }
    };
    assert(a.take(i) =~= b.take(i));
    assert(b.take(j) =~= c.take(j));
    let m = if i <= j {
        i
    } else {
        j
    };
    assert(a.take(m) =~= b.take(i).take(m));
    assert(c.take(m) =~= b.take(j).take(m));
    assert(b.take(i).take(m) =~= b.take(j).take(m));
    if i < j {
        assert(c[i] == c.take(j)[i]);
        assert(b[i] == b.take(j)[i]);
        if i < a.len() {
            assert(text::sorts_before(a[i], c[i]));
        } else {
            assert(a =~= c.take(i));
        }
    } else if j < i {
        assert(a[j] == a.take(i)[j]);
        assert(b[j] == b.take(i)[j]);
        assert(text::sorts_before(a[j], c[j]));
    } else {
        if i < a.len() {
            text::sorts_before_trans(a[i], b[i], c[i]);
        } else {
            assert(a =~= c.take(i));
        }
    }
}

fn is_path_before(a: &FilePath, b: &FilePath) -> (r: bool)
    ensures
        r == path_before(a.names(), b.names()),
{
    let ghost an = a.names();
    let ghost bn = b.names();
    let n: usize = a.parts.len();
    let m: usize = b.parts.len();
    let mut i: usize = 0;
    while i < n && i < m
        invariant
            an == a.names(),
            bn == b.names(),
            n == an.len(),
            m == bn.len(),
            i <= n,
            i <= m,
            an.take(i as int) =~= bn.take(i as int),
        decreases n - i,
    {
        let x = a.parts[i].as_str();
        let y = b.parts[i].as_str();
        assert(an[i as int] == x@ && bn[i as int] == y@);
        if !is_equal(x, y) {
            let r = text::is_before(x, y);
            proof {
                if r {
                    assert(text::sorts_before(an[i as int], bn[i as int]));
                } else if path_before(an, bn) {
                    first_difference(an, bn, i as int);
                }
            }
            return r;
        }
        i += 1;
    }
    proof {
        if n < m {
            assert(an =~= bn.take(n as int));
        } else if path_before(an, bn) {
            if an.len() < bn.len() {
            } else {
                let k = choose|k: int|
                    {
                        &&& 0 <= k < an.len()
                        &&& k < bn.len()
                        &&& text::sorts_before(#[trigger] an[k], bn[k])
                        &&& an.take(k) == bn.take(k)
                    };
                assert(an.take(i as int)[k] == bn.take(i as int)[k]);
                text::sorts_before_irreflexive(an[k]);
            }
        }
    }
    n < m
}

/// The order of paths is decided at the first difference.
proof fn first_difference(a: Seq<Seq<char>>, b: Seq<Seq<char>>, i: int)
    requires
        path_before(a, b),
        0 <= i < a.len(),
        i < b.len(),
        a.take(i) == b.take(i),
        a[i] != b[i],
    ensures
        text::sorts_before(a[i], b[i]),
{
    if a.len() < b.len() && a == b.take(a.len() as int) {
        assert(a[i] == b.take(a.len() as int)[i]);
    } else {
        let k = choose|k: int|
            {
                &&& 0 <= k < a.len()
                &&& k < b.len()
                &&& text::sorts_before(#[trigger] a[k], b[k])
                &&& a.take(k) == b.take(k)
            };
        if k < i {
            assert(a.take(i)[k] == b.take(i)[k]);
            text::sorts_before_irreflexive(a[k]);
        } else if k > i {
            assert(a.take(k)[i] == b.take(k)[i]);
        }
    }
}

/// A file that is no mask: none of its parts is `masks`.
pub open spec fn is_no_mask(names: Seq<Seq<char>>) -> bool {
    forall|k: int| 0 <= k < names.len() ==> #[trigger] names[k] != seq!['m', 'a', 's', 'k', 's']
}

fn no_mask(file: &FilePath) -> (r: bool)
    ensures
        r == is_no_mask(file.names()),
{
    proof {
        reveal_strlit("masks");
        assert("masks"@ =~= seq!['m', 'a', 's', 'k', 's']);
    }
    for k in 0..file.parts.len()
        invariant
            "masks"@ == seq!['m', 'a', 's', 'k', 's'],
            forall|j: int|
                0 <= j < k ==> #[trigger] file.names()[j] != seq!['m', 'a', 's', 'k', 's'],
    {
        assert(file.names()[k as int] == file.parts@[k as int]@);
        if is_equal(file.parts[k].as_str(), "masks") {
            return false;
        }
    }
    true
}

/// Resolve an image name to one of the files that end in it: the first in path order that is
/// no mask.
pub fn find_image_by_name(candidates: &Vec<FilePath>) -> (r: Option<usize>)
    ensures
        match r {
            Some(i) => {
                &&& i < candidates@.len()
                &&& is_no_mask(candidates@[i as int].names())
                &&& forall|k: int|
                    0 <= k < candidates@.len() && is_no_mask((#[trigger] candidates@[k]).names())
                        ==> !path_before(candidates@[k].names(), candidates@[i as int].names())
            },
            None => forall|k: int|
                0 <= k < candidates@.len() ==> !is_no_mask((#[trigger] candidates@[k]).names()),
        },
{
    let mut best: Option<usize> = None;
    for j in 0..candidates.len()
        invariant
            match best {
                Some(i) => {
                    &&& i < j
                    &&& is_no_mask(candidates@[i as int].names())
                    &&& forall|k: int|
                        0 <= k < j && is_no_mask((#[trigger] candidates@[k]).names())
                            ==> !path_before(candidates@[k].names(), candidates@[i as int].names())
                },
                None => forall|k: int|
                    0 <= k < j ==> !is_no_mask((#[trigger] candidates@[k]).names()),
            },
    {
        if no_mask(&candidates[j]) {
            proof {
                path_before_irreflexive(candidates@[j as int].names());
            }
            match best {
                None => {
                    best = Some(j);
                },
                Some(i) => {
                    if is_path_before(&candidates[j], &candidates[i]) {
                        proof {
                            assert forall|k: int|
                                0 <= k < j + 1 && is_no_mask(
                                    (#[trigger] candidates@[k]).names(),
                                ) implies !path_before(
                                candidates@[k].names(),
                                candidates@[j as int].names(),
                            ) by {
                                if path_before(candidates@[k].names(), candidates@[j as int].names()) {
                                    path_before_trans(
                                        candidates@[k].names(),
                                        candidates@[j as int].names(),
                                        candidates@[i as int].names(),
                                    );
                                }
                            }
                        }
                        best = Some(j);
                    }
                },
            }
        }
    }
    best
}

/// The file is called `init.ply`.
pub open spec fn is_init(names: Seq<Seq<char>>) -> bool {
    names.len() > 0 && names.last() == seq!['i', 'n', 'i', 't', '.', 'p', 'l', 'y']
}

fn called_init(file: &FilePath) -> (r: bool)
    ensures
        r == is_init(file.names()),
{
    proof {
        reveal_strlit("init.ply");
        assert("init.ply"@ =~= seq!['i', 'n', 'i', 't', '.', 'p', 'l', 'y']);
    }
    let n: usize = file.parts.len();
    if n == 0 {
        return false;
    }
    assert(file.names().last() == file.parts@[n - 1]@);
    is_equal(file.parts[n - 1].as_str(), "init.ply")
}

/// The point cloud that a run starts from: the first `init.ply` in path order, or else the
/// last of all.
pub fn main_ply(files: &Vec<FilePath>) -> (r: Option<usize>)
    ensures
        match r {
            Some(i) => {
                &&& i < files@.len()
                &&& if is_init(files@[i as int].names()) {
                    forall|k: int|
                        0 <= k < files@.len() && is_init((#[trigger] files@[k]).names())
                            ==> !path_before(files@[k].names(), files@[i as int].names())
                } else {
                    forall|k: int|
                        0 <= k < files@.len() ==> !is_init((#[trigger] files@[k]).names())
                            && !path_before(files@[i as int].names(), files@[k].names())
                }
            },
            None => files@.len() == 0,
        },
{
    let mut init: Option<usize> = None;
    let mut last: Option<usize> = None;
    for j in 0..files.len()
        invariant
            match init {
                Some(i) => {
                    &&& i < j
                    &&& is_init(files@[i as int].names())
                    &&& forall|k: int|
                        0 <= k < j && is_init((#[trigger] files@[k]).names()) ==> !path_before(
                            files@[k].names(),
                            files@[i as int].names(),
                        )
                },
                None => forall|k: int| 0 <= k < j ==> !is_init((#[trigger] files@[k]).names()),
            },
            match last {
                Some(i) => {
                    &&& i < j
                    &&& forall|k: int|
                        0 <= k < j ==> !path_before(
                            files@[i as int].names(),
                            (#[trigger] files@[k]).names(),
                        )
                },
                None => j == 0,
            },
    {
        proof {
            path_before_irreflexive(files@[j as int].names());
        }
        if called_init(&files[j]) {
            match init {
                None => {
                    init = Some(j);
                },
                Some(i) => {
                    if is_path_before(&files[j], &files[i]) {
                        proof {
                            assert forall|k: int|
                                0 <= k < j + 1 && is_init(
                                    (#[trigger] files@[k]).names(),
                                ) implies !path_before(
                                files@[k].names(),
                                files@[j as int].names(),
                            ) by {
                                if path_before(files@[k].names(), files@[j as int].names()) {
                                    path_before_trans(
                                        files@[k].names(),
                                        files@[j as int].names(),
                                        files@[i as int].names(),
                                    );
                                }
                            }
                        }
                        init = Some(j);
                    }
                },
            }
        }
        match last {
            None => {
                last = Some(j);
            },
            Some(i) => {
                if is_path_before(&files[i], &files[j]) {
                    proof {
                        assert forall|k: int| 0 <= k < j + 1 implies !path_before(
                            files@[j as int].names(),
                            (#[trigger] files@[k]).names(),
                        ) by {
                            if path_before(files@[j as int].names(), files@[k].names()) {
                                path_before_trans(
                                    files@[i as int].names(),
                                    files@[j as int].names(),
                                    files@[k].names(),
                                );
                            }
                        }
                    }
                    last = Some(j);
                }
            },
        }
    }
    match init {
        Some(i) => Some(i),
        None => last,
    }
}

/// The items of `s` before `n` whose place is, or is not, a multiple of `every`.
pub open spec fn every_nth<T>(s: Seq<T>, every: Option<usize>, chosen: bool, n: int) -> Seq<T>
    decreases n,
{
    if n <= 0 {
        Seq::empty()
    } else if is_chosen(every, n - 1) == chosen {
        every_nth(s, every, chosen, n - 1).push(s[n - 1])
    } else {
        every_nth(s, every, chosen, n - 1)
    }
}

/// Place `i` is chosen: it is a multiple of `every`.
pub open spec fn is_chosen(every: Option<usize>, i: int) -> bool {
    every matches Some(k) && i % (k as int) == 0
}

/// Split views into those to train on and those to evaluate: every so many is evaluated,
/// starting with the first.
pub fn split_eval_every<T: Copy>(views: &Vec<T>, every: Option<usize>) -> (r: (Vec<T>, Vec<T>))
    requires
        every matches Some(k) ==> k >= 1,
    ensures
        r.0@ == every_nth(views@, every, false, views@.len() as int),
        r.1@ == every_nth(views@, every, true, views@.len() as int),
{
    let mut train: Vec<T> = Vec::new();
    let mut eval: Vec<T> = Vec::new();
    for i in 0..views.len()
        invariant
            every matches Some(k) ==> k >= 1,
            train@ == every_nth(views@, every, false, i as int),
            eval@ == every_nth(views@, every, true, i as int),
    {
        let chosen: bool = match every {
            Some(k) => i % k == 0,
            None => false,
        };
        if chosen {
            eval.push(views[i]);
        } else {
            train.push(views[i]);
        }
    }
    (train, eval)
}

/// Every view goes to exactly one side of the split.
pub proof fn split_keeps_every_view<T>(s: Seq<T>, every: Option<usize>, n: int)
    requires
        0 <= n <= s.len(),
    ensures
        every_nth(s, every, false, n).to_multiset().add(
            every_nth(s, every, true, n).to_multiset(),
        ) == s.take(n).to_multiset(),
    decreases n,
{
    broadcast use vstd::seq_lib::group_to_multiset_ensures;

    if n > 0 {
        split_keeps_every_view(s, every, n - 1);
        assert(s.take(n) =~= s.take(n - 1).push(s[n - 1]));
        assert(every_nth(s, every, false, n).to_multiset().add(
            every_nth(s, every, true, n).to_multiset(),
        ) =~= s.take(n - 1).to_multiset().insert(s[n - 1]));
    } else {
        assert(s.take(0) =~= Seq::<T>::empty());
        assert(every_nth(s, every, false, n).to_multiset().add(
            every_nth(s, every, true, n).to_multiset(),
        ) =~= s.take(0).to_multiset());
    }
}

/// Names are the same if they have the same characters, where an upper case letter counts as the
/// lower case letter 32 places behind it.
pub proof fn names_differ_in_case_alone(a: Seq<char>, b: Seq<char>)
    ensures
        same_name(a, b) <==> a.len() == b.len() && forall|i: int|
            #![trigger a[i]]
            0 <= i < a.len() ==> a[i] == b[i] || ('A' <= a[i] <= 'Z' && b[i] as int == a[i] as int
                + 32) || ('A' <= b[i] <= 'Z' && a[i] as int == b[i] as int + 32),
{
    if a.len() == b.len() && (forall|i: int|
        #![trigger a[i]]
        0 <= i < a.len() ==> a[i] == b[i] || ('A' <= a[i] <= 'Z' && b[i] as int == a[i] as int + 32)
            || ('A' <= b[i] <= 'Z' && a[i] as int == b[i] as int + 32)) {
        assert(same_name(a, b));
    }
}

/// A name is its stem, a dot and its extension, which has no dot in it. A name without an
/// extension has no dot, but perhaps in front.
pub proof fn extensions_follow_the_last_dot(name: Seq<char>)
    ensures
        match extension(name) {
            Some(e) => stem(name).len() > 0 && name == stem(name).push('.') + e && !e.contains('.'),
            None => stem(name) == name && forall|i: int|
                #![trigger name[i]]
                1 <= i < name.len() ==> name[i] != '.',
        },
{
    let n = name.len() as int;
    let d = last_dots_are_last(name, n);
    if d > 0 {
        let e = name.skip(d + 1);
        assert(name =~= name.take(d).push('.') + e);
        assert forall|i: int| 0 <= i < e.len() implies #[trigger] e[i] != '.' by {
            assert(e[i] == name[d + 1 + i]);
        }
    }
}

proof fn last_dots_are_last(name: Seq<char>, n: int) -> (d: int)
    requires
        0 <= n <= name.len(),
    ensures
        d == last_dot(name, n),
        -1 <= d < n,
        d >= 0 ==> name[d] == '.',
        forall|i: int| #![trigger name[i]] d < i < n ==> name[i] != '.',
    decreases n,
{
    if n <= 0 {
        -1
    } else if name[n - 1] == '.' {
        n - 1
    } else {
        last_dots_are_last(name, n - 1)
    }
}

/// The place of `masks` is the first part of that name.
pub proof fn masks_are_found_first(names: Seq<Seq<char>>, n: int)
    requires
        0 <= n <= names.len(),
    ensures
        n <= masks_place(names, n) <= names.len(),
        masks_place(names, n) < names.len() ==> same_name(
            names[masks_place(names, n)],
            seq!['m', 'a', 's', 'k', 's'],
        ),
        forall|k: int|
            #![trigger names[k]]
            n <= k < masks_place(names, n) ==> !same_name(names[k], seq!['m', 'a', 's', 'k', 's']),
    decreases names.len() - n,
{
    if n < names.len() && !same_name(names[n], seq!['m', 'a', 's', 'k', 's']) {
        masks_are_found_first(names, n + 1);
    }
}

/// The evaluated views are the first one and then every so many; the others are trained on, in
/// their order.
pub proof fn every_so_many_views_are_evaluated<T>(s: Seq<T>, k: usize, n: int)
    requires
        0 <= n <= s.len(),
        k >= 1,
    ensures
        ({
            let r = every_nth(s, Some(k), true, n);
            &&& r.len() * k >= n
            &&& n > 0 ==> (r.len() - 1) * k < n
            &&& n == 0 ==> r.len() == 0
            &&& forall|m: int| #![trigger r[m]] 0 <= m < r.len() ==> r[m] == s[m * k]
        }),
    decreases n,
{
    if n > 0 {
        every_so_many_views_are_evaluated(s, k, n - 1);
        let before = every_nth(s, Some(k), true, n - 1);
        let r = every_nth(s, Some(k), true, n);
        let b = before.len() as int;
        let kk = k as int;
        if (n - 1) % kk == 0 {
            let q = (n - 1) / kk;
            vstd::arithmetic::div_mod::lemma_fundamental_div_mod(n - 1, kk);
            assert(q == b) by (nonlinear_arith)
                requires
                    n - 1 == kk * q,
                    b * kk >= n - 1,
                    n - 1 > 0 ==> (b - 1) * kk < n - 1,
                    n - 1 == 0 ==> b == 0,
                    kk >= 1,
                    n >= 1,
                    b >= 0,
            ;
            assert(b * kk == n - 1) by (nonlinear_arith)
                requires
                    n - 1 == kk * q,
                    q == b,
            ;
            assert((b + 1) * kk == b * kk + kk) by (nonlinear_arith);
            assert(r == before.push(s[n - 1]));
            assert((r.len() - 1) * k == n - 1 && r.len() * k == n - 1 + kk);
            assert forall|m: int| #![trigger r[m]] 0 <= m < r.len() implies r[m] == s[m * k] by {
                if m < b {
                    assert(r[m] == before[m]);
                } else {
                    assert(m * k == n - 1);
                }
            }
        } else {
            assert(b * kk != n - 1) by {
                if b * kk == n - 1 {
                    vstd::arithmetic::div_mod::lemma_fundamental_div_mod_converse(n - 1, kk, b, 0);
                }
            }
            assert(n - 1 > 0) by {
                vstd::arithmetic::div_mod::lemma_small_mod(0, k as nat);
            }
            assert(r == before);
        }
    } else {
        let r = every_nth(s, Some(k), true, n);
        assert(r.len() * k == 0) by (nonlinear_arith)
            requires
                r.len() == 0,
        ;
    }
}

/// Without an interval all views are trained on.
pub proof fn nothing_is_evaluated_by_default<T>(s: Seq<T>, n: int)
    requires
        0 <= n <= s.len(),
    ensures
        every_nth(s, None, false, n) == s.take(n),
        every_nth(s, None, true, n).len() == 0,
    decreases n,
{
    if n > 0 {
        nothing_is_evaluated_by_default(s, n - 1);
        assert(s.take(n) =~= s.take(n - 1).push(s[n - 1]));
    } else {
        assert(s.take(n) =~= Seq::empty());
    }
}

/// A mask lies behind the first part called `masks`. The directories in between, read from the file
/// backwards, are those of the image; and it is named like the image but for the case of letters:
/// with the extension of the image, without it, or with `.mask` in its place.
pub proof fn masks_mirror_the_image(mask: Seq<Seq<char>>, image: Seq<Seq<char>>) -> (at: int)
    requires
        is_mask_of(mask, image),
        image.len() > 0,
    ensures
        0 <= at < mask.len() - 1,
        same_name(mask[at], seq!['m', 'a', 's', 'k', 's']),
        forall|k: int|
            #![trigger mask[k]]
            0 <= k < at ==> !same_name(mask[k], seq!['m', 'a', 's', 'k', 's']),
        mask.len() - 1 - at <= image.len(),
        forall|k: int|
            #![trigger mask[k]]
            at < k < mask.len() - 1 ==> mask[k] == image[k + image.len() - mask.len()],
        ({
            let (m, i) = (mask[mask.len() - 1], image[image.len() - 1]);
            ||| same_name(stem(m), i)
            ||| same_name(stem(m), stem(i))
            ||| same_name(stem(m), stem(i) + seq!['.', 'm', 'a', 's', 'k'])
        }),
{
    let at = masks_place(mask, 0);
    masks_are_found_first(mask, 0);
    let dirs = mask.subrange(at + 1, mask.len() - 1);
    let all = image.drop_last();
    assert forall|k: int| #![trigger mask[k]] at < k < mask.len() - 1 implies mask[k] == image[k
        + image.len() - mask.len()] by {
        let j = k - at - 1;
        assert(dirs[j] == mask[k]);
        assert(all.skip(all.len() - dirs.len())[j] == all[all.len() - dirs.len() + j]);
    }
    at
}

/// A depth map is a `.bin` file under a directory called `depth` or `depths`, with the stem of the
/// image, whatever the case of the letters.
pub proof fn depth_maps_are_found_by_name(file: Seq<Seq<char>>, image: Seq<Seq<char>>, x: Seq<char>, k: int)
    requires
        file.len() > 0,
        image.len() > 0,
        x.len() > 0,
        file.last() == x + seq!['.', 'b', 'i', 'n'],
        same_name(x, stem(image.last())),
        0 <= k < file.len(),
        file[k] == seq!['d', 'e', 'p', 't', 'h'] || file[k] == seq!['d', 'e', 'p', 't', 'h', 's'],
    ensures
        is_depth_of(file, image),
{
    let name = file.last();
    let n = name.len() as int;
    let d = last_dots_are_last(name, n);
    assert(name[x.len() as int] == '.');
    assert(name[n - 1] == 'n' && name[n - 2] == 'i' && name[n - 3] == 'b');
    assert(d == n - 4);
    assert(stem(name) =~= x);
    assert(name.skip(d + 1) =~= seq!['b', 'i', 'n']);
    assert(same_name(seq!['b', 'i', 'n'], seq!['b', 'i', 'n']));
    assert(is_depth_dir(file[k]));
}

} // verus!
