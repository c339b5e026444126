use smart_trapper::boundary::{dirs8, masks_adjacent, touching_pairs};
use smart_trapper::codec::{load_plate, plate_from_rgba, trap_png, trap_rgba};
use smart_trapper::distance::{distance_field, UNREACHED};
use smart_trapper::error::TrapError;
use smart_trapper::job::{default_tolerance, find_plate_file};
use smart_trapper::mask::{alpha_to_bit, any_on};
use smart_trapper::naming::{sanitize, trap_file_name, trap_record};
use smart_trapper::trap::{compute_traps, effective_trap_distance, synthesize_trap, trap_mask};

fn columns(w: usize, h: usize, cols: &[usize]) -> Vec<u8> {
    let mut m = vec![0u8; w * h];
    for y in 0..h {
        for &x in cols {
            m[y * w + x] = 1;
        }
    }
    m
}

fn rgba_with_alpha(alpha: &[u8]) -> Vec<u8> {
    let mut v = Vec::new();
    for &a in alpha {
        v.extend_from_slice(&[10, 20, 30, a]);
    }
    v
}

fn png_bytes(w: u32, h: u32, alpha: &[u8]) -> Vec<u8> {
    let img = image::RgbaImage::from_raw(w, h, rgba_with_alpha(alpha)).unwrap();
    let mut out = std::io::Cursor::new(Vec::new());
    img.write_to(&mut out, image::ImageFormat::Png).unwrap();
    out.into_inner()
}

#[test]
fn two_plates_trap_distance_one() {
    let plates = vec![columns(4, 2, &[0, 1]), columns(4, 2, &[2, 3])];
    let traps = compute_traps(&plates, 4, 2, 1);
    assert_eq!(traps.len(), 1);
    assert_eq!((traps[0].lower, traps[0].upper), (0, 1));
    assert_eq!(traps[0].mask, vec![0, 0, 1, 0, 0, 0, 1, 0]);
}

#[test]
fn two_plates_trap_distance_zero() {
    let plates = vec![columns(4, 2, &[0, 1]), columns(4, 2, &[2, 3])];
    assert_eq!(touching_pairs(&plates, 4, 2), vec![(0, 1)]);
    let traps = compute_traps(&plates, 4, 2, 0);
    assert!(traps.is_empty());
}

#[test]
fn three_apart_plates_give_no_trap() {
    let plates = vec![columns(5, 1, &[0]), columns(5, 1, &[2]), columns(5, 1, &[4])];
    assert!(touching_pairs(&plates, 5, 1).is_empty());
    assert!(compute_traps(&plates, 5, 1, 10).is_empty());
}

#[test]
fn mask_of_other_size_is_refused() {
    let alpha = vec![255u8; 9];
    let rgba = rgba_with_alpha(&alpha);
    assert_eq!(plate_from_rgba(4, 2, 3, 3, &rgba), Err(TrapError::SizeMismatch));
    let bytes = png_bytes(3, 3, &alpha);
    assert_eq!(load_plate(4, 2, &bytes), Err(TrapError::SizeMismatch));
}

#[test]
fn plate_loads_from_png() {
    let alpha = [0u8, 1, 255, 0, 128, 0];
    let bytes = png_bytes(3, 2, &alpha);
    assert_eq!(load_plate(3, 2, &bytes), Ok(vec![0, 1, 1, 0, 1, 0]));
}

#[test]
fn garbage_is_a_decode_error() {
    assert_eq!(load_plate(1, 1, &[1, 2, 3, 4, 5]), Err(TrapError::DecodeError));
}

#[test]
fn alpha_decides_bits() {
    let rgba = rgba_with_alpha(&[0, 1, 200, 0]);
    assert_eq!(alpha_to_bit(2, 2, &rgba), vec![0, 1, 1, 0]);
    assert_eq!(plate_from_rgba(2, 2, 2, 2, &rgba), Ok(vec![0, 1, 1, 0]));
}

#[test]
fn any_on_finds_paint() {
    assert!(!any_on(&[]));
    assert!(!any_on(&[0, 0, 0]));
    assert!(any_on(&[0, 0, 3]));
}

#[test]
fn neighbour_offsets() {
    assert_eq!(dirs8(), [(-1, 0), (1, 0), (0, -1), (0, 1), (-1, -1), (-1, 1), (1, -1), (1, 1)]);
}

#[test]
fn distance_is_taxicab() {
    let mut m = vec![0u8; 9];
    m[4] = 1;
    assert_eq!(distance_field(&m, 3, 3), vec![2, 1, 2, 1, 0, 1, 2, 1, 2]);
    let m = columns(4, 2, &[0, 1]);
    assert_eq!(distance_field(&m, 4, 2), vec![0, 0, 1, 2, 0, 0, 1, 2]);
}

#[test]
fn distance_two_sources_takes_nearest() {
    let m = vec![1u8, 0, 0, 0, 0, 1];
    assert_eq!(distance_field(&m, 6, 1), vec![0, 1, 2, 2, 1, 0]);
}

#[test]
fn distance_without_paint_is_unreached() {
    let m = vec![0u8; 6];
    assert_eq!(distance_field(&m, 3, 2), vec![UNREACHED; 6]);
}

#[test]
fn distance_zero_on_paint_and_steps_by_one() {
    let m = columns(5, 3, &[1]);
    let d = distance_field(&m, 5, 3);
    for y in 0..3 {
        assert_eq!(d[y * 5 + 1], 0);
        for x in 0..4 {
            let a = d[y * 5 + x] as i64;
            let b = d[y * 5 + x + 1] as i64;
            assert!((a - b).abs() <= 1);
        }
    }
    assert_eq!(d[4], 3);
}

#[test]
fn diagonal_contact_touches() {
    let a = vec![1u8, 0, 0, 0];
    let b = vec![0u8, 0, 0, 1];
    assert!(masks_adjacent(&a, &b, 2, 2));
    assert!(masks_adjacent(&b, &a, 2, 2));
    let c = vec![1u8, 0, 0, 0, 0, 0];
    let d = vec![0u8, 0, 1, 0, 0, 0];
    assert!(!masks_adjacent(&c, &d, 3, 2));
}

#[test]
fn pairs_are_canonical_and_sorted() {
    // plate 2 on the left, plate 0 in the middle, plate 1 on the right
    let plates = vec![columns(3, 1, &[1]), columns(3, 1, &[2]), columns(3, 1, &[0])];
    assert_eq!(touching_pairs(&plates, 3, 1), vec![(0, 1), (0, 2)]);
}

#[test]
fn overlapping_plates_trap_at_distance_zero() {
    let lower = vec![1u8, 1, 0];
    let upper = vec![0u8, 1, 1];
    assert_eq!(synthesize_trap(&lower, &upper, 3, 1, 0), vec![0, 1, 0]);
}

#[test]
fn trap_grows_with_distance() {
    let lower = columns(6, 1, &[0]);
    let upper = columns(6, 1, &[1, 2, 3, 4, 5]);
    let t1 = synthesize_trap(&lower, &upper, 6, 1, 1);
    let t3 = synthesize_trap(&lower, &upper, 6, 1, 3);
    assert_eq!(t1, vec![0, 1, 0, 0, 0, 0]);
    assert_eq!(t3, vec![0, 1, 1, 1, 0, 0]);
    for i in 0..6 {
        if t1[i] != 0 {
            assert!(t3[i] != 0);
        }
        if t3[i] != 0 {
            assert!(upper[i] != 0);
        }
    }
}

#[test]
fn trap_mask_thresholds_distances() {
    assert_eq!(trap_mask(&[1, 1, 0, 1], &[0, 3, 0, 2], 2), vec![1, 0, 0, 1]);
}

#[test]
fn repeated_runs_agree() {
    let plates = vec![columns(4, 3, &[0]), columns(4, 3, &[1, 2]), columns(4, 3, &[3])];
    let a = compute_traps(&plates, 4, 3, 2);
    let b = compute_traps(&plates, 4, 3, 2);
    assert_eq!(a.len(), 2);
    assert_eq!(a.len(), b.len());
    for k in 0..a.len() {
        assert_eq!((a[k].lower, a[k].upper), (b[k].lower, b[k].upper));
        assert_eq!(a[k].mask, b[k].mask);
    }
    assert_eq!((a[0].lower, a[0].upper), (0, 1));
    assert_eq!((a[1].lower, a[1].upper), (1, 2));
    assert_eq!(a[1].mask, columns(4, 3, &[3]));
}

#[test]
fn trap_distance_choice() {
    assert_eq!(effective_trap_distance(Some(3), 5), 3);
    assert_eq!(effective_trap_distance(Some(-4), 5), 0);
    assert_eq!(effective_trap_distance(None, 5), 5);
    assert_eq!(default_tolerance(), 5);
}

#[test]
fn names_are_sanitized() {
    assert_eq!(sanitize("a/b\\c:d*e?f\"g<h>i|j"), "a_b_c_d_e_f_g_h_i_j");
    assert_eq!(sanitize("Pantone 185 C"), "Pantone 185 C");
    assert_eq!(trap_file_name("Red/1", "Blue"), "TRAP__Red_1_over_Blue.png");
}

#[test]
fn record_names_plates_and_path() {
    let names = vec!["Cyan".to_string(), "Spot:Gold".to_string()];
    let r = trap_record(&names, 0, 1);
    assert_eq!(r.source, "Cyan");
    assert_eq!(r.target, "Spot:Gold");
    assert_eq!(r.png, "traps/TRAP__Cyan_over_Spot_Gold.png");
}

#[test]
fn plate_files_found_by_name() {
    let files = vec!["Black".to_string(), "Cyan".to_string(), "Cyan".to_string()];
    assert_eq!(find_plate_file(&"Cyan".to_string(), &files), Ok(1));
    assert_eq!(find_plate_file(&"Gold".to_string(), &files), Err(TrapError::MissingFileDescriptor));
}

#[test]
fn trap_image_is_white_with_alpha() {
    assert_eq!(trap_rgba(&[1, 0]), vec![255, 255, 255, 255, 255, 255, 255, 0]);
    let png = trap_png(2, 1, &[1, 0]).unwrap();
    let img = image::load_from_memory(&png).unwrap().to_rgba8();
    assert_eq!(img.dimensions(), (2, 1));
    assert_eq!(img.into_raw(), vec![255, 255, 255, 255, 255, 255, 255, 0]);
}
