//! Depth files.

use brush_mesh::dataset::load_depth::{
    byte_confidences, decode_samples, infer_dims, load_raw, sanitize, truncate_confidences,
    DepthError,
};
use brush_mesh::float::F32;

fn g(x: &F32) -> f32 {
    f32::from_bits(x.bits)
}

fn bytes(v: &[f32]) -> Vec<u8> {
    v.iter().flat_map(|x| x.to_ne_bytes()).collect()
}

#[test]
fn infers_arkit_dims() {
    // ARKit depth on a 4:3 capture.
    assert_eq!(infer_dims(256 * 192, (4032, 3024)), Some((256, 192)));
    // 16:9 capture.
    assert_eq!(infer_dims(256 * 144, (1920, 1080)), Some((256, 144)));
    // Prime sample count has no sane factorization.
    assert_eq!(infer_dims(49157, (4032, 3024)), None);
}

#[test]
fn dims_follow_the_orientation_of_the_image() {
    assert_eq!(infer_dims(256 * 192, (3024, 4032)), Some((192, 256)));
    assert_eq!(infer_dims(1, (10, 10)), Some((1, 1)));
    assert_eq!(infer_dims(0, (10, 10)), None);
    // Six by four is within a fifth of square, as logarithms go; the nearest is taken.
    assert_eq!(infer_dims(24, (12, 8)), Some((6, 4)));
}

#[test]
fn missing_depth_is_far_away() {
    let words: Vec<u32> =
        [1.5f32, 0.0, -1.0, f32::NAN, f32::INFINITY].iter().map(|x| x.to_bits()).collect();
    let depth: Vec<f32> = sanitize(&words).iter().map(g).collect();
    let inf = f32::INFINITY;
    assert_eq!(depth, vec![1.5, inf, inf, inf, inf]);
}

#[test]
fn confidences_are_clamped_and_truncated() {
    let words: Vec<u32> = [0.0f32, 0.4, 0.5, 1.0, 1.5, 2.0, 9.0, -3.0, f32::NAN]
        .iter()
        .map(|x| x.to_bits())
        .collect();
    let want: Vec<u8> = words
        .iter()
        .map(|&w| f32::from_bits(w).clamp(0.0, 2.0) as u8)
        .collect();
    assert_eq!(truncate_confidences(&words), want);
    assert_eq!(want, vec![0, 0, 0, 1, 1, 2, 2, 0, 0]);
}

#[test]
fn depth_is_read_with_its_confidence() {
    let depth = bytes(&[1.0, 2.0, -1.0, 4.0]);
    let d = match load_raw(&depth, (100, 100), None) {
        Ok(d) => d,
        Err(e) => panic!("{e:?}"),
    };
    assert_eq!((d.width, d.height), (2, 2));
    assert_eq!(d.depth.iter().map(g).collect::<Vec<f32>>(), vec![1.0, 2.0, f32::INFINITY, 4.0]);
    assert_eq!(d.conf, vec![2; 4]);
    let d = match load_raw(&depth, (100, 100), Some(&[0, 1, 2, 1])) {
        Ok(d) => d,
        Err(e) => panic!("{e:?}"),
    };
    assert_eq!(d.conf, vec![0, 1, 2, 1]);
    let conf = bytes(&[0.0, 1.0, 2.0, 1.0]);
    let d = match load_raw(&depth, (100, 100), Some(&conf)) {
        Ok(d) => d,
        Err(e) => panic!("{e:?}"),
    };
    assert_eq!(d.conf, vec![0, 1, 2, 1]);
}

#[test]
fn depth_files_of_the_wrong_size_are_refused() {
    assert!(matches!(load_raw(&[], (10, 10), None), Err(DepthError::Size(0))));
    assert!(matches!(load_raw(&[0; 7], (10, 10), None), Err(DepthError::Size(7))));
    assert!(matches!(load_raw(&[0; 20], (10, 10), None), Err(DepthError::NoDims(5))));
    assert!(matches!(
        load_raw(&[0; 16], (10, 10), Some(&[0; 5])),
        Err(DepthError::Confidence { bytes: 5, samples: 4 })
    ));
    assert!(matches!(
        byte_confidences(4, Some(&[0; 3])),
        Err(DepthError::Confidence { bytes: 3, samples: 4 })
    ));
}

#[test]
fn depth_and_confidence_are_read_in_one_byte_order() {
    let (depth, conf) = decode_samples(&bytes(&[3.5, -0.0, 0.25]), &bytes(&[1.0, 7.0]));
    assert_eq!(depth.iter().map(g).collect::<Vec<f32>>(), vec![3.5, f32::INFINITY, 0.25]);
    assert_eq!(conf, vec![1, 2]);
    let (depth, conf) = decode_samples(&bytes(&[3.5]), &[]);
    assert_eq!((g(&depth[0]), depth.len(), conf.len()), (3.5, 1, 0));
    assert!(matches!(byte_confidences(4, Some(&[0; 16])), Ok(None)));
    assert!(matches!(byte_confidences(2, None), Ok(Some(c)) if c == vec![2, 2]));
}
