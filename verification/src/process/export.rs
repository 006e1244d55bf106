//! Names of exported files.

use crate::process::config::ProcessConfig;
use crate::text;
use vstd::prelude::*;

verus! {

/// The extension of an export.
pub open spec fn extension() -> Seq<char> {
    seq!['.', 'p', 'l', 'y']
}

/// The extension with the number of a level of detail in front of it.
pub open spec fn level_extension(lod: u32) -> Seq<char> {
    seq!['_', 'l', 'o', 'd'] + text::decimal(lod as nat) + extension()
}

/// What stands for the iteration in a name.
pub open spec fn iter_mark() -> Seq<char> {
    seq!['{', 'i', 't', 'e', 'r', '}']
}

/// The name that an export at level of detail `lod` is made from, with the iteration and the
/// total that go into it. A level of detail is exported once it is trained in full, under
/// the name with its number in front of the extension.
pub open spec fn target(
    name: Seq<char>,
    lod: u32,
    iter: u32,
    training_steps: u32,
    lod_refine_steps: u32,
) -> (Seq<char>, u32, u32) {
    if lod == 0 {
        (name, iter, training_steps)
    } else {
        (
            text::replaced(name, extension(), level_extension(lod)),
            lod_refine_steps,
            lod_refine_steps,
        )
    }
}

/// The export name, iteration and total for an export.
pub fn export_target(
    process_config: &ProcessConfig,
    current_lod: u32,
    iter: u32,
    training_steps: u32,
    lod_refine_steps: u32,
) -> (r: (String, u32, u32))
    ensures
        (r.0@, r.1, r.2) == target(
            process_config.export_name@,
            current_lod,
            iter,
            training_steps,
            lod_refine_steps,
        ),
{
    if current_lod == 0 {
        (process_config.export_name.clone(), iter, training_steps)
    } else {
        proof {
            reveal_strlit("_lod");
            reveal_strlit(".ply");
        }
        let mut suffix = String::from_str("_lod");
        suffix.append(text::to_decimal(current_lod).as_str());
        suffix.append(".ply");
        let name = text::replace(process_config.export_name.as_str(), ".ply", suffix.as_str());
        proof {
            assert("_lod"@ =~= seq!['_', 'l', 'o', 'd']);
            assert(".ply"@ =~= seq!['.', 'p', 'l', 'y']);
        }
        (name, lod_refine_steps, lod_refine_steps)
    }
}

/// `iter` padded with zeros to the number of digits of `total`.
pub open spec fn padded_iter(iter: u32, total: u32) -> Seq<char> {
    text::padded(
        iter as nat,
        text::decimal(
            if total >= 1 {
                total as nat
            } else {
                1
            },
        ).len(),
    )
}

/// Pad `iter` to the digit count of `total` so that exports sort by name.
pub fn pad_iter(iter: u32, total: u32) -> (r: String)
    ensures
        r@ == padded_iter(iter, total),
{
    let t: u32 = if total >= 1 {
        total
    } else {
        1
    };
    let width: usize = text::to_decimal(t).as_str().unicode_len();
    text::pad(iter, width)
}

/// Exports of one run sort by name as they sort by iteration.
pub proof fn exports_sort_by_name(a: u32, b: u32, total: u32)
    requires
        a < b <= total,
    ensures
        text::sorts_before(padded_iter(a, total), padded_iter(b, total)),
{
    text::digits_grow(b as nat, total as nat);
    text::padded_numbers_sort(a as nat, b as nat, text::decimal(total as nat).len());
}

/// The file name of an export: its iteration in place of `{iter}`.
pub open spec fn file_name(name: Seq<char>, iter: u32, total: u32) -> Seq<char> {
    text::replaced(name, iter_mark(), padded_iter(iter, total))
}

/// The file name of an export.
pub fn export_file_name(name: &str, iter: u32, total: u32) -> (r: String)
    ensures
        r@ == file_name(name@, iter, total),
{
    proof {
        reveal_strlit("{iter}");
        assert("{iter}"@ =~= seq!['{', 'i', 't', 'e', 'r', '}']);
    }
    text::replace(name, "{iter}", pad_iter(iter, total).as_str())
}

/// The export directory: the name of the dataset in place of `{dataset}`.
pub open spec fn directory(path: Seq<char>, dataset: Seq<char>) -> Seq<char> {
    text::replaced(path, seq!['{', 'd', 'a', 't', 'a', 's', 'e', 't', '}'], dataset)
}

/// The export directory of a dataset. One without a name is called `dataset`.
pub fn export_directory(path: &str, dataset: Option<&str>) -> (r: String)
    ensures
        r@ == directory(
            path@,
            match dataset {
                Some(name) => name@,
                None => seq!['d', 'a', 't', 'a', 's', 'e', 't'],
            },
        ),
{
    proof {
        reveal_strlit("{dataset}");
        reveal_strlit("dataset");
        assert("{dataset}"@ =~= seq!['{', 'd', 'a', 't', 'a', 's', 'e', 't', '}']);
        assert("dataset"@ =~= seq!['d', 'a', 't', 'a', 's', 'e', 't']);
    }
    let name = match dataset {
        Some(name) => name,
        None => "dataset",
    };
    text::replace(path, "{dataset}", name)
}

/// The file name of a mesh.
pub fn mesh_file_name(iter: u32, total: u32) -> (r: String)
    ensures
        r@ == seq!['m', 'e', 's', 'h', '_'] + padded_iter(iter, total) + seq!['.', 'g', 'l', 'b'],
{
    proof {
        reveal_strlit("mesh_");
        reveal_strlit(".glb");
        assert("mesh_"@ =~= seq!['m', 'e', 's', 'h', '_']);
        assert(".glb"@ =~= seq!['.', 'g', 'l', 'b']);
    }
    let mut r = String::from_str("mesh_");
    r.append(pad_iter(iter, total).as_str());
    r.append(".glb");
    r
}

/// The name has the extension in it.
#[verifier::opaque]
spec fn has_extension(name: Seq<char>) -> bool {
    text::occurs(name, extension())
}

/// The name begins with the extension.
#[verifier::opaque]
spec fn at_extension(name: Seq<char>) -> bool {
    text::begins(name, extension())
}

/// The name begins with the mark of the iteration.
#[verifier::opaque]
spec fn at_mark(name: Seq<char>) -> bool {
    text::begins(name, iter_mark())
}

/// The file name of an export at a level of detail, with `ext` in place of the extension and
/// `number` in place of the iteration.
#[verifier::opaque]
spec fn filled(name: Seq<char>, ext: Seq<char>, number: Seq<char>) -> Seq<char> {
    text::replaced(text::replaced(name, extension(), ext), iter_mark(), number)
}

/// The text is a level extension: nothing in it could be taken for the mark of the iteration.
#[verifier::opaque]
spec fn is_plain(ext: Seq<char>) -> bool {
    ext.len() > 0 && ext[0] == '_' && text::lacks(ext, '{')
}

/// One step through a name: what is put in for its extension, for the mark of the iteration,
/// or its first character.
proof fn filled_step(name: Seq<char>, ext: Seq<char>, number: Seq<char>)
    requires
        name.len() > 0,
        is_plain(ext),
    ensures
        at_extension(name) ==> name.len() >= 4,
        at_mark(name) ==> name.len() >= 6,
        at_extension(name) ==> filled(name, ext, number) == ext + filled(
            name.skip(4),
            ext,
            number,
        ),
        at_mark(name) ==> filled(name, ext, number) == number + filled(
            name.skip(6),
            ext,
            number,
        ),
        !at_extension(name) && !at_mark(name) ==> filled(
            name,
            ext,
            number,
        ) == seq![name[0]] + filled(name.skip(1), ext, number),
{
    reveal(filled);
    reveal(is_plain);
    reveal(at_extension);
    reveal(at_mark);
    let (ply, mark) = (extension(), iter_mark());
    if at_extension(name) {
        assert(name =~= ply + name.skip(4));
        text::replaced_match(ply, name.skip(4), ext);
        text::replaced_after(ext, text::replaced(name.skip(4), ply, ext), mark, number);
    }
    if at_mark(name) {
        assert(name =~= mark + name.skip(6));
        assert(text::lacks(mark, ply[0]));
        text::replaced_after(mark, name.skip(6), ply, ext);
        text::replaced_match(mark, text::replaced(name.skip(6), ply, ext), number);
    }
    if !at_extension(name) && !at_mark(name) {
        let rest = text::replaced(name.skip(1), ply, ext);
        text::replaced_step(name, ply, ext);
        let inner = seq![name[0]] + rest;
        assert(text::replaced(name, ply, ext) == inner);
        if text::begins(inner, mark) {
            assert(text::lacks(mark, ext[0]));
            text::beginning_was_there(name, ply, ext, mark);
        }
        text::replaced_step(inner, mark, number);
        assert(inner.skip(1) =~= rest);
    }
}

/// One step through a name of the main training.
proof fn main_step(name: Seq<char>, number: Seq<char>)
    requires
        name.len() > 0,
    ensures
        at_extension(name) ==> file_of(name, number) == extension() + file_of(
            name.skip(4),
            number,
        ),
        at_mark(name) ==> file_of(name, number) == number + file_of(
            name.skip(6),
            number,
        ),
        !at_mark(name) ==> file_of(name, number) == seq![name[0]] + file_of(
            name.skip(1),
            number,
        ),
{
    reveal(file_of);
    reveal(at_extension);
    reveal(at_mark);
    let (ply, mark) = (extension(), iter_mark());
    if at_extension(name) {
        assert(name =~= ply + name.skip(4));
        assert(text::lacks(ply, mark[0]));
        text::replaced_after(ply, name.skip(4), mark, number);
    }
    if at_mark(name) {
        assert(name =~= mark + name.skip(6));
        text::replaced_match(mark, name.skip(6), number);
    } else {
        text::replaced_step(name, mark, number);
    }
}

#[verifier::opaque]
spec fn file_of(name: Seq<char>, number: Seq<char>) -> Seq<char> {
    text::replaced(name, iter_mark(), number)
}

/// The extension occurs behind a part of a name that it does not begin in.
proof fn extension_is_later(name: Seq<char>)
    requires
        name.len() > 0,
        has_extension(name),
        !at_extension(name),
    ensures
        at_mark(name) ==> has_extension(name.skip(6)),
        has_extension(name.skip(1)),
{
    reveal(has_extension);
    reveal(at_extension);
    reveal(at_mark);
    let (ply, mark) = (extension(), iter_mark());
    if at_mark(name) {
        assert(name =~= mark + name.skip(6));
        assert(text::lacks(mark, ply[0]));
        text::occurs_after(mark, name.skip(6), ply);
    }
    text::occurs_later(name, ply);
}

/// The underscores of a text.
spec fn underscores(s: Seq<char>) -> nat
    decreases s.len(),
{
    if s.len() == 0 {
        0
    } else {
        underscores(s.drop_last()) + if s.last() == '_' {
            1nat
        } else {
            0
        }
    }
}

proof fn underscores_add_up(a: Seq<char>, b: Seq<char>)
    ensures
        underscores(a + b) == underscores(a) + underscores(b),
    decreases b.len(),
{
    if b.len() == 0 {
        assert(a + b =~= a);
    } else {
        assert((a + b).drop_last() =~= a + b.drop_last());
        underscores_add_up(a, b.drop_last());
    }
}

proof fn no_underscores(s: Seq<char>)
    requires
        text::lacks(s, '_'),
    ensures
        underscores(s) == 0,
    decreases s.len(),
{
    if s.len() > 0 {
        assert(s.last() == s[s.len() - 1]);
        assert forall|i: int| 0 <= i < s.drop_last().len() implies #[trigger] s.drop_last()[i]
            != '_' by {
            assert(s.drop_last()[i] == s[i]);
        }
        no_underscores(s.drop_last());
    }
}

/// A level has more underscores in its name than the main training.
proof fn levels_have_more_underscores(
    name: Seq<char>,
    ext: Seq<char>,
    number: Seq<char>,
    main: Seq<char>,
)
    requires
        is_plain(ext),
        text::lacks(number, '_'),
        text::lacks(main, '_'),
    ensures
        underscores(file_of(name, main)) <= underscores(filled(name, ext, number)),
        has_extension(name) ==> underscores(file_of(name, main)) < underscores(
            filled(name, ext, number),
        ),
    decreases name.len(),
{
    let ply = extension();
    if name.len() == 0 {
        reveal(has_extension);
        assert(file_of(name, main) == name) by {
            reveal(file_of);
        }
    } else {
        filled_step(name, ext, number);
        main_step(name, main);
        let has = has_extension(name);
        if at_extension(name) {
            let rest = name.skip(4);
            levels_have_more_underscores(rest, ext, number, main);
            underscores_add_up(ext, filled(rest, ext, number));
            underscores_add_up(ply, file_of(rest, main));
            no_underscores(ply);
            reveal(is_plain);
            assert(ext =~= seq![ext[0]] + ext.skip(1));
            underscores_add_up(seq![ext[0]], ext.skip(1));
            assert(underscores(seq!['_']) == 1) by {
                assert(seq!['_'].drop_last() =~= Seq::<char>::empty());
                assert(underscores(Seq::<char>::empty()) == 0);
            }
        } else if at_mark(name) {
            let rest = name.skip(6);
            if has {
                extension_is_later(name);
            }
            levels_have_more_underscores(rest, ext, number, main);
            underscores_add_up(number, filled(rest, ext, number));
            underscores_add_up(main, file_of(rest, main));
            no_underscores(number);
            no_underscores(main);
        } else {
            let rest = name.skip(1);
            if has {
                extension_is_later(name);
            }
            levels_have_more_underscores(rest, ext, number, main);
            underscores_add_up(seq![name[0]], filled(rest, ext, number));
            underscores_add_up(seq![name[0]], file_of(rest, main));
        }
    }
}

/// Names with a longer extension are not shorter.
proof fn longer_extensions_give_longer_names(
    name: Seq<char>,
    short: Seq<char>,
    long: Seq<char>,
    number: Seq<char>,
)
    requires
        is_plain(short),
        is_plain(long),
        short.len() < long.len(),
    ensures
        filled(name, short, number).len() <= filled(name, long, number).len(),
        has_extension(name) ==> filled(name, short, number).len() < filled(
            name,
            long,
            number,
        ).len(),
    decreases name.len(),
{
    if name.len() == 0 {
        reveal(has_extension);
        assert(filled(name, short, number) == name) by {
            reveal(filled);
        }
    } else {
        filled_step(name, short, number);
        filled_step(name, long, number);
        if at_extension(name) {
            longer_extensions_give_longer_names(name.skip(4), short, long, number);
        } else {
            if has_extension(name) {
                extension_is_later(name);
            }
            if at_mark(name) {
                longer_extensions_give_longer_names(name.skip(6), short, long, number);
            } else {
                longer_extensions_give_longer_names(name.skip(1), short, long, number);
            }
        }
    }
}

/// Different extensions of one length give different names.
proof fn other_extensions_give_other_names(
    name: Seq<char>,
    a: Seq<char>,
    b: Seq<char>,
    number: Seq<char>,
)
    requires
        is_plain(a),
        is_plain(b),
        a.len() == b.len(),
        a != b,
        has_extension(name),
    ensures
        filled(name, a, number) != filled(name, b, number),
    decreases name.len(),
{
    assert(name.len() > 0) by {
        reveal(has_extension);
    }
    if name.len() > 0 {
        filled_step(name, a, number);
        filled_step(name, b, number);
        if at_extension(name) {
            let rest = name.skip(4);
            beginnings_differ(a, filled(rest, a, number), b, filled(rest, b, number));
        } else {
            extension_is_later(name);
            if at_mark(name) {
                let rest = name.skip(6);
                other_extensions_give_other_names(rest, a, b, number);
                endings_differ(number, filled(rest, a, number), filled(rest, b, number));
            } else {
                let rest = name.skip(1);
                other_extensions_give_other_names(rest, a, b, number);
                endings_differ(seq![name[0]], filled(rest, a, number), filled(rest, b, number));
            }
        }
    }
}

proof fn beginnings_differ(a: Seq<char>, u: Seq<char>, b: Seq<char>, v: Seq<char>)
    requires
        a.len() == b.len(),
        a != b,
    ensures
        a + u != b + v,
{
    assert((a + u).take(a.len() as int) =~= a);
    assert((b + v).take(b.len() as int) =~= b);
}

proof fn endings_differ(p: Seq<char>, u: Seq<char>, v: Seq<char>)
    requires
        u != v,
    ensures
        p + u != p + v,
{
    assert((p + u).skip(p.len() as int) =~= u);
    assert((p + v).skip(p.len() as int) =~= v);
}

proof fn level_extension_is_plain(lod: u32)
    ensures
        is_plain(level_extension(lod)),
{
    reveal(is_plain);
    let ext = level_extension(lod);
    let d = text::decimal(lod as nat);
    assert forall|i: int| 0 <= i < ext.len() implies #[trigger] ext[i] != '{' by {
        if 4 <= i < 4 + d.len() {
            text::decimal_is_digits(lod as nat, i - 4);
            assert(ext[i] == d[i - 4]);
        } else if i >= 4 + d.len() {
            assert(ext[i] == extension()[i - 4 - d.len()]);
        }
    }
}

proof fn numbers_have_no_underscore(iter: u32, total: u32)
    ensures
        text::lacks(padded_iter(iter, total), '_'),
{
    let s = padded_iter(iter, total);
    let d = text::decimal(iter as nat);
    assert forall|i: int| 0 <= i < s.len() implies #[trigger] s[i] != '_' by {
        let zeros = s.len() - d.len();
        if i >= zeros {
            text::decimal_is_digits(iter as nat, i - zeros);
            assert(s[i] == d[i - zeros]);
        }
    }
}

/// Exports of different levels of detail never share a file, whatever the iterations: as
/// long as the name has the extension in it.
pub proof fn levels_have_files_of_their_own(
    name: Seq<char>,
    a: u32,
    b: u32,
    iter_a: u32,
    iter_b: u32,
    training_steps: u32,
    lod_refine_steps: u32,
)
    requires
        a != b,
        text::occurs(name, extension()),
    ensures
        ({
            let s = target(name, a, iter_a, training_steps, lod_refine_steps);
            let t = target(name, b, iter_b, training_steps, lod_refine_steps);
            file_name(s.0, s.1, s.2) != file_name(t.0, t.1, t.2)
        }),
{
    reveal(has_extension);
    reveal(filled);
    reveal(file_of);
    level_extension_is_plain(a);
    level_extension_is_plain(b);
    numbers_have_no_underscore(iter_a, training_steps);
    numbers_have_no_underscore(iter_b, training_steps);
    numbers_have_no_underscore(lod_refine_steps, lod_refine_steps);
    let number = padded_iter(lod_refine_steps, lod_refine_steps);
    let (x, y) = (level_extension(a), level_extension(b));
    if a == 0 {
        levels_have_more_underscores(name, y, number, padded_iter(iter_a, training_steps));
    } else if b == 0 {
        levels_have_more_underscores(name, x, number, padded_iter(iter_b, training_steps));
    } else if x.len() < y.len() {
        longer_extensions_give_longer_names(name, x, y, number);
    } else if y.len() < x.len() {
        longer_extensions_give_longer_names(name, y, x, number);
    } else {
        text::decimals_differ(a as nat, b as nat);
        let n = text::decimal(a as nat).len() as int;
        assert(x.subrange(4, 4 + n) =~= text::decimal(a as nat));
        assert(y.subrange(4, 4 + n) =~= text::decimal(b as nat));
        other_extensions_give_other_names(name, x, y, number);
    }
}

/// A mark in a name, with nothing that looks like one around it, makes way for what it stands for.
pub proof fn marks_are_filled_in(x: Seq<char>, y: Seq<char>, iter: u32, total: u32)
    requires
        text::lacks(x, '{'),
        text::lacks(y, '{'),
    ensures
        file_name(x + seq!['{', 'i', 't', 'e', 'r', '}'] + y, iter, total) == x + padded_iter(
            iter,
            total,
        ) + y,
{
    let m = iter_mark();
    let to = padded_iter(iter, total);
    let s = x + m + y;
    assert(s =~= x + (m + y));
    text::replaced_after(x, m + y, m, to);
    text::replaced_match(m, y, to);
    text::replaced_after(y, Seq::empty(), m, to);
    assert(y + Seq::<char>::empty() =~= y);
    assert(text::replaced(Seq::empty(), m, to) =~= Seq::empty());
    assert(x + (to + y) =~= x + to + y);
}

/// The number in the name of an export reads as its iteration, and has as many digits as the total.
pub proof fn names_tell_the_iteration(iter: u32, total: u32)
    requires
        iter <= total,
        total > 0,
    ensures
        text::number_of(padded_iter(iter, total)) == iter,
        padded_iter(iter, total).len() == text::decimal(total as nat).len(),
{
    text::padding_reads_back(iter as nat, text::decimal(total as nat).len());
    text::digits_grow(iter as nat, total as nat);
}

/// A level of detail has its number in front of the extension, and counts its own steps, all of
/// which are done; the main training keeps the name and counts the steps that are done.
pub proof fn levels_are_named_by_number(
    x: Seq<char>,
    lod: u32,
    iter: u32,
    training_steps: u32,
    lod_refine_steps: u32,
)
    requires
        text::lacks(x, '.'),
    ensures
        ({
            let name = x + seq!['.', 'p', 'l', 'y'];
            let t = target(name, lod, iter, training_steps, lod_refine_steps);
            &&& lod == 0 ==> t == (name, iter, training_steps)
            &&& lod > 0 ==> t.0 == x + seq!['_', 'l', 'o', 'd'] + text::decimal(lod as nat) + seq![
                '.',
                'p',
                'l',
                'y',
            ] && t.1 == lod_refine_steps && t.2 == lod_refine_steps
        }),
{
    if lod > 0 {
        let (e, to) = (extension(), level_extension(lod));
        let none = Seq::<char>::empty();
        text::replaced_after(x, e, e, to);
        text::replaced_match(e, none, to);
        assert(e + none =~= e);
        assert(text::replaced(none, e, to) =~= none);
        assert(to + none =~= to);
        assert(x + to =~= x + seq!['_', 'l', 'o', 'd'] + text::decimal(lod as nat) + seq![
            '.',
            'p',
            'l',
            'y',
        ]);
    }
}

/// The name of the dataset takes the place of its mark in a path.
pub proof fn datasets_are_filled_in(x: Seq<char>, y: Seq<char>, dataset: Seq<char>)
    requires
        text::lacks(x, '{'),
        text::lacks(y, '{'),
    ensures
        directory(x + seq!['{', 'd', 'a', 't', 'a', 's', 'e', 't', '}'] + y, dataset) == x + dataset
            + y,
{
    let m = seq!['{', 'd', 'a', 't', 'a', 's', 'e', 't', '}'];
    let none = Seq::<char>::empty();
    assert(x + m + y =~= x + (m + y));
    text::replaced_after(x, m + y, m, dataset);
    text::replaced_match(m, y, dataset);
    text::replaced_after(y, none, m, dataset);
    assert(y + none =~= y);
    assert(text::replaced(none, m, dataset) =~= none);
    assert(x + (dataset + y) =~= x + dataset + y);
}

} // verus!
