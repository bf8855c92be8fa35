use fabric_lang::error::Error;
use fabric_lang::interpreter::{
    interpret, interpret_sexp, ErrorKind, Fabric, Face, GrowthInstruction, SeedType, Twist, Value,
    VulcanizeType,
};
use fabric_lang::scanner::Decimal;
use fabric_lang::sexp;

fn built(source: &str) -> Fabric {
    match interpret(source) {
        Ok(f) => f,
        Err(_) => panic!("interpret failed on {:?}", source),
    }
}

fn fault(source: &str) -> ErrorKind {
    match interpret(source) {
        Err(Error::InterpretError(e)) => e.kind,
        _ => panic!("expected an interpretation error on {:?}", source),
    }
}

#[test]
fn name_and_scale_interpret() {
    let f = built("(fabric (name \"X\") (scale 50%))");
    assert_eq!(f.name.as_deref(), Some("X"));
    // 50 percent is stored normalized: 50 / 10^2 == 0.5
    let s = f.scale.unwrap();
    assert_eq!(s, Decimal { mantissa: 50, exponent: 2 });
    assert_eq!(s.mantissa as f64 / 10f64.powi(s.exponent as i32), 0.5);
}

#[test]
fn duplicate_scale_is_already_defined() {
    let k = fault("(fabric (scale 10%) (scale 20%))");
    assert!(matches!(k, ErrorKind::AlreadyDefined { property: "scale", .. }));
}

#[test]
fn unknown_fabric_form_is_illegal_call() {
    let k = fault("(fabric (unknown-thing))");
    assert!(matches!(k, ErrorKind::IllegalCall { context: "fabric def", .. }));
}

#[test]
fn features_interpret_to_typed_values() {
    let f = built("(fabric (features (count 3) (label :ready)))");
    assert_eq!(f.features.len(), 2);
    assert_eq!(f.features[0].0, "count");
    assert!(matches!(f.features[0].1, Value::Integer(3)));
    assert_eq!(f.features[1].0, "label");
    assert!(matches!(&f.features[1].1, Value::Atom(a) if a == "ready"));
}

#[test]
fn repeated_feature_key_silently_overwrites() {
    let f = built("(fabric (features (count 3) (count 4)))");
    assert_eq!(f.features.len(), 1);
    assert_eq!(f.features[0].0, "count");
    assert!(matches!(f.features[0].1, Value::Integer(4)));
}

#[test]
fn duplicate_seed_is_already_defined() {
    let k = fault("(fabric (build (seed :left) (seed :left-right)))");
    assert!(matches!(k, ErrorKind::AlreadyDefined { property: "seed", .. }));
}

#[test]
fn seed_and_vulcanize_atoms_map_to_enums() {
    let f = built("(fabric (build (seed :left-right) (vulcanize :bowtie)))");
    assert!(matches!(f.build_phase.seed, Some(SeedType::LeftRight)));
    assert!(matches!(f.build_phase.vulcanize, Some(VulcanizeType::Bowtie)));
    let f = built("(fabric (build (seed :left) (vulcanize :snelson)))");
    assert!(matches!(f.build_phase.seed, Some(SeedType::Left)));
    assert!(matches!(f.build_phase.vulcanize, Some(VulcanizeType::Snelson)));
}

#[test]
fn bad_seed_value_is_a_type_error() {
    let k = fault("(fabric (build (seed :middle)))");
    assert!(matches!(k, ErrorKind::TypeError { expected: "left|left-right", .. }));
    let k = fault("(fabric (build (seed 3)))");
    assert!(matches!(k, ErrorKind::TypeError { .. }));
}

#[test]
fn build_scale_stays_unnormalized() {
    let f = built("(fabric (build (scale 75%)))");
    assert_eq!(f.build_phase.scale, Some(Decimal { mantissa: 75, exponent: 0 }));
}

#[test]
fn wrong_scale_argument_is_a_bad_call() {
    let k = fault("(fabric (scale 50))");
    assert!(matches!(k, ErrorKind::BadCall { context: "fabric def", .. }));
    let k = fault("(fabric (name 3))");
    assert!(matches!(k, ErrorKind::BadCall { context: "fabric def", .. }));
}

#[test]
fn top_level_must_be_fabric() {
    let k = fault("(something-else)");
    assert!(matches!(k, ErrorKind::Mismatch { rule: "fabric", .. }));
    let k = fault("42");
    assert!(matches!(k, ErrorKind::Mismatch { rule: "fabric", .. }));
}

#[test]
fn shape_and_pretense_are_skipped() {
    let f = built("(fabric (shape (anything 1)) (pretense) (name \"Y\"))");
    assert_eq!(f.name.as_deref(), Some("Y"));
}

#[test]
fn grow_with_repeat_and_children() {
    let f = built("(fabric (build (grow :A (repeat 3) (twist :continue :switch) (mark :tip))))");
    match f.build_phase.growth {
        Some(GrowthInstruction::Grow { face, repeat, instructions }) => {
            assert!(matches!(face, Face::A));
            assert_eq!(repeat, Some(3));
            assert_eq!(instructions.len(), 2);
            match &instructions[0] {
                GrowthInstruction::Twist { twists } => {
                    assert!(matches!(twists[0], Twist::Continue));
                    assert!(matches!(twists[1], Twist::Switch));
                }
                _ => panic!("expected a twist"),
            }
            assert!(matches!(&instructions[1], GrowthInstruction::Mark { name } if name == "tip"));
        }
        _ => panic!("expected a grow instruction"),
    }
}

#[test]
fn branch_maps_faces_to_subtrees() {
    let f = built("(fabric (build (branch (face :a (grow :B)) (face :C) (face :d (join :tip)))))");
    match f.build_phase.growth {
        Some(GrowthInstruction::Branch { faces }) => {
            assert_eq!(faces.len(), 3);
            assert!(matches!(faces[0].0, Face::a));
            assert!(matches!(&faces[0].1, GrowthInstruction::Grow { face: Face::B, .. }));
            assert!(matches!(faces[1].0, Face::C));
            assert!(matches!(&faces[1].1, GrowthInstruction::Noop));
            assert!(matches!(&faces[2].1, GrowthInstruction::Join { name } if name == "tip"));
        }
        _ => panic!("expected a branch instruction"),
    }
}

#[test]
fn duplicate_branch_face_is_already_defined() {
    let k = fault("(fabric (build (branch (face :A) (face :A))))");
    assert!(matches!(k, ErrorKind::AlreadyDefined { property: "face", .. }));
}

#[test]
fn duplicate_repeat_is_already_defined() {
    let k = fault("(fabric (build (grow :A (repeat 1) (repeat 2))))");
    assert!(matches!(k, ErrorKind::AlreadyDefined { property: "repeat", .. }));
}

#[test]
fn negative_repeat_is_a_bad_call() {
    let k = fault("(fabric (build (grow :A (repeat -1))))");
    assert!(matches!(k, ErrorKind::BadCall { context: "grow", .. }));
}

#[test]
fn bad_face_is_a_type_error() {
    let k = fault("(fabric (build (grow :E)))");
    assert!(matches!(k, ErrorKind::TypeError { expected: "A|B|C|D|a|b|c|d", .. }));
}

#[test]
fn second_growth_form_is_already_defined() {
    let k = fault("(fabric (build (grow :A) (branch (face :B))))");
    assert!(matches!(k, ErrorKind::AlreadyDefined { property: "growth", .. }));
}

#[test]
fn unknown_build_form_is_illegal_call() {
    let k = fault("(fabric (build (paint :red)))");
    assert!(matches!(k, ErrorKind::IllegalCall { context: "build phase", .. }));
}

#[test]
fn non_literal_feature_value_is_a_mismatch() {
    let k = fault("(fabric (features (count (nested))))");
    assert!(matches!(k, ErrorKind::Mismatch { rule: "literal", .. }));
}

#[test]
fn interpret_sexp_walks_an_already_parsed_tree() {
    let tree = match sexp::parse("(fabric (name \"Z\"))") {
        Ok(s) => s,
        Err(_) => panic!("parse failed"),
    };
    let f = match interpret_sexp(&tree) {
        Ok(f) => f,
        Err(_) => panic!("interpret failed"),
    };
    assert_eq!(f.name.as_deref(), Some("Z"));
}

#[test]
fn scan_and_parse_faults_reach_the_caller() {
    assert!(matches!(interpret("(fabric @)"), Err(Error::ScanError(_))));
    assert!(matches!(interpret("(fabric"), Err(Error::SexpParseError(_))));
}
