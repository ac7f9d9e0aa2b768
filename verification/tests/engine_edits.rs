use flexo::engine::FlexoInfo;

#[test]
fn defaults() {
    let f = FlexoInfo::new();
    assert_eq!(f.gears(), "");
    assert_eq!(f.pitch(), "3.175");
    assert_eq!(f.girth(), "");
    assert_eq!(f.thickness(), "1.7");
    assert_eq!(f.deformation(), "");
    assert_eq!(f.count(), "");
    assert_eq!(f.before(), "");
    assert_eq!(f.after(), "");
    assert!(f.girth_direction());
    assert!(f.deformation_direction());
    let rows = f.data();
    assert_eq!(rows.len(), 10);
    assert_eq!(rows[0].id, "1模");
    assert_eq!(rows[9].id, "10模");
    assert_eq!(rows[4].before, "");
    assert_eq!(rows[4].after, "");
    let one = f.one_data();
    assert_eq!(one.len(), 1);
    assert_eq!(one[0].id, "n模");
}

#[test]
fn gear_edit_computes_girth() {
    let mut f = FlexoInfo::new();
    f.set_text("齿数", String::from("10"));
    f.compute("齿数");
    assert_eq!(f.girth(), "31.75");
    assert!(f.girth_direction());
    // thickness 1.7 -> K = 9.89: (1 - 9.89/31.75) * 100 = 68.850393...
    assert_eq!(f.deformation(), "68.850393");
}

#[test]
fn thickness_edit_recomputes_ratio() {
    let mut f = FlexoInfo::new();
    f.set_text("版辊周长", String::from("31.75"));
    f.set_text("版材厚度", String::from("1.14"));
    f.compute("版材厚度");
    // (1 - 6.06/31.75) * 100 = 80.913385...
    assert_eq!(f.deformation(), "80.913385");
}

#[test]
fn unknown_thickness_falls_back() {
    let mut f = FlexoInfo::new();
    f.set_text("版辊周长", String::from("31.75"));
    f.set_text("版材厚度", String::from("2.2"));
    f.compute("版材厚度");
    // the constant for "1.14" is used
    assert_eq!(f.deformation(), "80.913385");
}

#[test]
fn zero_girth_blanks_dependents() {
    let mut f = FlexoInfo::new();
    f.set_text("齿数", String::from("10"));
    f.compute("齿数");
    f.set_text("版辊周长", String::from("0"));
    f.compute("版辊周长");
    assert!(!f.girth_direction());
    assert_eq!(f.gears(), "");
    assert_eq!(f.deformation(), "");
    assert_eq!(f.girth(), "0");
}

#[test]
fn girth_edit_computes_gears() {
    let mut f = FlexoInfo::new();
    f.set_text("版辊周长", String::from("31.75"));
    f.compute("版辊周长");
    assert!(!f.girth_direction());
    assert_eq!(f.gears(), "10");
    assert_eq!(f.deformation(), "68.850393");
}

#[test]
fn pitch_edit_follows_direction() {
    let mut f = FlexoInfo::new();
    f.set_text("版辊周长", String::from("31.75"));
    f.compute("版辊周长");
    // girth is authoritative now: a pitch edit recomputes the gear count
    // and leaves the girth untouched
    f.set_text("齿距", String::from("5"));
    f.compute("齿距");
    assert_eq!(f.girth(), "31.75");
    assert_eq!(f.gears(), "6.35");

    // in the other direction a pitch edit recomputes the girth
    let mut f = FlexoInfo::new();
    f.set_text("齿数", String::from("10"));
    f.compute("齿数");
    f.set_text("齿距", String::from("5"));
    f.compute("齿距");
    assert_eq!(f.girth(), "50");
}

#[test]
fn zero_pitch_blanks_gears() {
    let mut f = FlexoInfo::new();
    f.set_text("版辊周长", String::from("31.75"));
    f.compute("版辊周长");
    f.set_text("齿距", String::from("0"));
    f.compute("齿距");
    assert_eq!(f.gears(), "");
    assert_eq!(f.girth(), "31.75");
}

#[test]
fn before_after_projection() {
    let mut f = FlexoInfo::new();
    f.set_text("变形率", String::from("80.9"));
    f.set_text("变形前", String::from("100"));
    f.compute("变形前");
    assert!(f.deformation_direction());
    assert_eq!(f.after(), "80.9");

    f.set_text("变形后", String::from("50"));
    f.compute("变形后");
    assert!(!f.deformation_direction());
    // 50 / 80.9 * 100 = 61.804697...
    assert_eq!(f.before(), "61.804697");
    assert_eq!(f.after(), "50");
}

#[test]
fn before_after_round_trip() {
    let mut f = FlexoInfo::new();
    f.set_text("变形率", String::from("80.9"));
    f.set_text("变形前", String::from("100"));
    f.compute("变形前");
    let after = f.after();
    assert_eq!(after, "80.9");
    f.set_text("变形后", after);
    f.compute("变形后");
    // the original before value is recovered exactly
    assert_eq!(f.before(), "100");
}

#[test]
fn zero_before_blanks_after() {
    let mut f = FlexoInfo::new();
    f.set_text("变形率", String::from("80.9"));
    f.set_text("变形前", String::from("0"));
    f.compute("变形前");
    assert_eq!(f.after(), "");
}

#[test]
fn zero_ratio_blanks_before() {
    let mut f = FlexoInfo::new();
    f.set_text("变形后", String::from("50"));
    f.compute("变形后");
    // the ratio field is blank, so it reads as zero: the division is not
    // attempted and the target is blanked
    assert_eq!(f.before(), "");
}

#[test]
fn negative_gear_count() {
    let mut f = FlexoInfo::new();
    f.set_text("齿数", String::from("-10"));
    f.compute("齿数");
    assert_eq!(f.girth(), "-31.75");
    // (1 - 9.89 / -31.75) * 100 = 131.149606...
    assert_eq!(f.deformation(), "131.149606");
}

#[test]
fn unknown_label_changes_nothing() {
    let mut f = FlexoInfo::new();
    f.set_text("齿数", String::from("10"));
    f.compute("齿数");
    let girth = f.girth();
    let deformation = f.deformation();
    f.compute("something else");
    assert_eq!(f.girth(), girth);
    assert_eq!(f.deformation(), deformation);
    assert_eq!(f.after(), "");
}

#[test]
fn edits_keep_projection_in_sync() {
    // a gear edit re-derives the after dimension from the new ratio
    let mut f = FlexoInfo::new();
    f.set_text("变形前", String::from("100"));
    f.set_text("齿数", String::from("10"));
    f.compute("齿数");
    // ratio became 68.850393, so after = 100 * 68.850393 / 100
    assert_eq!(f.after(), "68.850393");
}

#[test]
fn engine_output_is_already_canonical() {
    // what the engine writes survives the keystroke normalizer unchanged
    let mut f = flexo::engine::FlexoInfo::new();
    f.set_text("齿数", String::from("10"));
    f.compute("齿数");
    for text in [f.girth(), f.deformation(), f.gears(), f.pitch()] {
        assert_eq!(flexo::text::format_float(text.clone()), text);
    }
    f.set_text("齿数", String::from("-10"));
    f.compute("齿数");
    assert_eq!(flexo::text::format_float(f.girth()), "-31.75");
}
