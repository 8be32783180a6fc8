use epaper_dither::assign::{
    get_images, last_index, leading_index, name_matches_stem, stem_of_path, format_index,
    make_fresh_name,
};

fn names(list: &[&[u8]]) -> Vec<Vec<u8>> {
    list.iter().map(|s| s.to_vec()).collect()
}

#[test]
fn leading_index_parses_digits() {
    assert_eq!(leading_index(&b"0007-cat.bin".to_vec()), Some(7));
    assert_eq!(leading_index(&b"123".to_vec()), Some(123));
    assert_eq!(leading_index(&b"0000".to_vec()), Some(0));
}

#[test]
fn leading_index_rejects_non_digits() {
    assert_eq!(leading_index(&b"cat.bin".to_vec()), None);
    assert_eq!(leading_index(&b"".to_vec()), None);
    assert_eq!(leading_index(&b"-12".to_vec()), None);
}

#[test]
fn leading_index_rejects_overflow() {
    assert_eq!(leading_index(&b"4294967295-x.bin".to_vec()), Some(4294967295));
    assert_eq!(leading_index(&b"4294967296-x.bin".to_vec()), None);
    assert_eq!(leading_index(&b"99999999999".to_vec()), None);
}

#[test]
fn last_index_takes_maximum() {
    let dest = names(&[b"0007-cat.bin", b"0012-dog.bin", b"x.bin", b"3-a.bin"]);
    assert_eq!(last_index(&dest), 12);
}

#[test]
fn last_index_empty_is_zero() {
    assert_eq!(last_index(&names(&[])), 0);
}

#[test]
fn matching_requires_full_shape() {
    assert!(name_matches_stem(&b"0007-cat.bin".to_vec(), &b"cat".to_vec()));
    assert!(name_matches_stem(&b"1-cat.bin".to_vec(), &b"cat".to_vec()));
    assert!(!name_matches_stem(&b"0007-cats.bin".to_vec(), &b"cat".to_vec()));
    assert!(!name_matches_stem(&b"0007-cat.png".to_vec(), &b"cat".to_vec()));
    assert!(!name_matches_stem(&b"-cat.bin".to_vec(), &b"cat".to_vec()));
    assert!(!name_matches_stem(&b"cat.bin".to_vec(), &b"cat".to_vec()));
}

#[test]
fn matching_dot_is_literal() {
    // The extension separator must be an actual dot.
    assert!(!name_matches_stem(&b"0007-catxbin".to_vec(), &b"cat".to_vec()));
}

#[test]
fn matching_stem_with_hyphens_and_digits() {
    assert!(name_matches_stem(&b"12-3-x.bin".to_vec(), &b"3-x".to_vec()));
    assert!(!name_matches_stem(&b"12-34-cat.bin".to_vec(), &b"cat".to_vec()));
}

#[test]
fn stems_drop_directory_and_extension() {
    assert_eq!(stem_of_path(&b"dir/photo.jpeg".to_vec()), Some(b"photo".to_vec()));
    assert_eq!(stem_of_path(&b"photo.jpeg".to_vec()), Some(b"photo".to_vec()));
    assert_eq!(stem_of_path(&b"archive.tar.gz".to_vec()), Some(b"archive.tar".to_vec()));
    assert_eq!(stem_of_path(&b"noext".to_vec()), Some(b"noext".to_vec()));
    assert_eq!(stem_of_path(&b".hidden".to_vec()), Some(b".hidden".to_vec()));
}

#[test]
fn stemless_paths_are_rejected() {
    assert_eq!(stem_of_path(&b"".to_vec()), None);
    assert_eq!(stem_of_path(&b"dir/".to_vec()), None);
    assert_eq!(stem_of_path(&b".".to_vec()), None);
    assert_eq!(stem_of_path(&b"..".to_vec()), None);
}

#[test]
fn formatting_pads_to_four_digits() {
    assert_eq!(format_index(1), b"0001".to_vec());
    assert_eq!(format_index(0), b"0000".to_vec());
    assert_eq!(format_index(1234), b"1234".to_vec());
    assert_eq!(format_index(100000), b"100000".to_vec());
}

#[test]
fn fresh_names_have_the_expected_shape() {
    assert_eq!(make_fresh_name(13, &b"x".to_vec()), b"0013-x.bin".to_vec());
}

#[test]
fn empty_batch_empty_destination_yields_no_mappings() {
    let result = get_images(Vec::new(), &names(&[]), false);
    assert!(result.is_empty());
}

#[test]
fn three_new_inputs_get_sequential_indices() {
    let sources = names(&[b"a.png", b"b.png", b"c.png"]);
    let result = get_images(sources, &names(&[]), false);
    assert_eq!(result.len(), 3);
    assert_eq!(result[0].input, b"a.png".to_vec());
    assert_eq!(result[0].output, b"0001-a.bin".to_vec());
    assert_eq!(result[1].output, b"0002-b.bin".to_vec());
    assert_eq!(result[2].output, b"0003-c.bin".to_vec());
}

#[test]
fn existing_stem_reuses_its_index() {
    let dest = names(&[b"0003-dog.bin", b"0007-cat.bin"]);
    let sources = names(&[b"new.png", b"cat.png"]);
    let result = get_images(sources, &dest, false);
    assert_eq!(result.len(), 2);
    assert_eq!(result[0].output, b"0008-new.bin".to_vec());
    assert_eq!(result[1].output, b"0007-cat.bin".to_vec());
}

#[test]
fn reuse_holds_under_randomization() {
    let dest = names(&[b"0007-cat.bin"]);
    for _ in 0..16 {
        let sources = names(&[b"a.png", b"cat.png", b"b.png"]);
        let result = get_images(sources, &dest, true);
        assert_eq!(result.len(), 3);
        let cat = result.iter().find(|i| i.input == b"cat.png".to_vec()).unwrap();
        assert_eq!(cat.output, b"0007-cat.bin".to_vec());
    }
}

#[test]
fn fresh_indices_are_above_the_highest_and_distinct() {
    let dest = names(&[b"0012-dog.bin"]);
    for &random in &[false, true] {
        let sources = names(&[b"x.png", b"y.png"]);
        let result = get_images(sources, &dest, random);
        assert_eq!(result.len(), 2);
        let mut indices: Vec<u32> =
            result.iter().map(|i| leading_index(&i.output).unwrap()).collect();
        indices.sort();
        assert_eq!(indices, vec![13, 14]);
    }
}

#[test]
fn randomization_keeps_the_same_set_of_inputs() {
    let sources = names(&[b"a.png", b"b.png", b"c.png"]);
    let result = get_images(sources, &names(&[]), true);
    let mut inputs: Vec<Vec<u8>> = result.iter().map(|i| i.input.clone()).collect();
    inputs.sort();
    assert_eq!(inputs, names(&[b"a.png", b"b.png", b"c.png"]));
    // Every output carries its own input's stem; the indices 1..=3 are
    // handed out once each, in whatever order the shuffle picked.
    for info in &result {
        let stem = &info.input[..1];
        assert_eq!(&info.output[5..6], stem);
        assert!(name_matches_stem(&info.output, &stem.to_vec()));
    }
    let mut indices: Vec<u32> = result.iter().map(|i| leading_index(&i.output).unwrap()).collect();
    indices.sort();
    assert_eq!(indices, vec![1, 2, 3]);
}

#[test]
fn stemless_inputs_are_skipped_and_the_batch_continues() {
    let sources = names(&[b"..", b"ok.png"]);
    let result = get_images(sources, &names(&[]), false);
    assert_eq!(result.len(), 1);
    assert_eq!(result[0].input, b"ok.png".to_vec());
    assert_eq!(result[0].output, b"0001-ok.bin".to_vec());
}

#[test]
fn wide_indices_grow_past_four_digits() {
    let dest = names(&[b"99999-z.bin"]);
    let result = get_images(names(&[b"x.png"]), &dest, false);
    assert_eq!(result[0].output, b"100000-x.bin".to_vec());
}
