//! Fabric builder: walks the s-expression tree under the grammar of
//! recognized forms and produces the typed `Fabric` model, or the first
//! semantic fault.
//!
//! Growth instructions are written as keyed sub-calls:
//! `(grow :A (repeat 3) (twist :continue) ...)`,
//! `(branch (face :A (grow :B)) (face :C))`,
//! `(twist :continue :switch)`, `(mark :tip)`, `(join :tip)`.
use crate::scanner::Decimal;
use crate::sexp::LiteralView;
use crate::sexp::Sexp;
use crate::sexp::SexpView;
use vstd::prelude::*;

pub mod builder;

verus! {

broadcast use
    vstd::std_specs::vec::axiom_vec_decreases_to_view,
    vstd::seq::axiom_seq_index_decreases,
    vstd::seq::axiom_seq_subrange_decreases,
;

/// A free-form feature value, mirroring the literal kinds.
#[derive(Debug)]
pub enum Value {
    Atom(String),
    Str(String),
    Integer(i64),
    Float(Decimal),
    Percent(Decimal),
}

pub ghost enum ValueView {
    Atom(Seq<char>),
    Str(Seq<char>),
    Integer(i64),
    Float(Decimal),
    Percent(Decimal),
}

impl View for Value {
    type V = ValueView;

    open spec fn view(&self) -> ValueView {
        match self {
            Value::Atom(s) => ValueView::Atom(s@),
            Value::Str(s) => ValueView::Str(s@),
            Value::Integer(n) => ValueView::Integer(*n),
            Value::Float(d) => ValueView::Float(*d),
            Value::Percent(d) => ValueView::Percent(*d),
        }
    }
}

/// An attachment face on a growable module; case picks the orientation of
/// the same axis.
#[allow(non_camel_case_types)]
#[derive(Clone, Copy, PartialEq, Eq, Structural, Debug)]
pub enum Face {
    A,
    B,
    C,
    D,
    a,
    b,
    c,
    d,
}

#[derive(Clone, Copy, PartialEq, Eq, Structural, Debug)]
pub enum VulcanizeType {
    Bowtie,
    Snelson,
}

impl Default for VulcanizeType {
    fn default() -> (r: Self)
        ensures
            r == VulcanizeType::Bowtie,
    {
        VulcanizeType::Bowtie
    }
}

#[derive(Clone, Copy, PartialEq, Eq, Structural, Debug)]
pub enum SurfaceCharacter {
    Frozen,
    Bouncy,
}

#[derive(Clone, Copy, PartialEq, Eq, Structural, Debug)]
pub enum SeedType {
    Left,
    LeftRight,
}

impl Default for SeedType {
    fn default() -> (r: Self)
        ensures
            r == SeedType::Left,
    {
        SeedType::Left
    }
}

#[derive(Clone, Copy, PartialEq, Eq, Structural, Debug)]
pub enum Twist {
    Continue,
    Switch,
}

/// One step of a growth plan; a tree built bottom-up, with no cycles.
#[derive(Debug)]
pub enum GrowthInstruction {
    Noop,
    Grow { face: Face, repeat: Option<usize>, instructions: Vec<GrowthInstruction> },
    Branch { faces: Vec<(Face, GrowthInstruction)> },
    Twist { twists: Vec<Twist> },
    Mark { name: String },
    Join { name: String },
}

impl Default for GrowthInstruction {
    fn default() -> (r: Self)
        ensures
            r is Noop,
    {
        GrowthInstruction::Noop
    }
}

pub ghost enum GrowthView {
    Noop,
    Grow { face: Face, repeat: Option<usize>, instructions: Seq<GrowthView> },
    Branch { faces: Seq<(Face, GrowthView)> },
    Twist { twists: Seq<Twist> },
    Mark { name: Seq<char> },
    Join { name: Seq<char> },
}

pub open spec fn view_growth(g: GrowthInstruction) -> GrowthView
    decreases g,
{
    match g {
        GrowthInstruction::Noop => GrowthView::Noop,
        GrowthInstruction::Grow { face, repeat, instructions } => GrowthView::Grow {
            face,
            repeat,
            instructions: view_growths(instructions@),
        },
        GrowthInstruction::Branch { faces } => GrowthView::Branch { faces: view_face_pairs(faces@) },
        GrowthInstruction::Twist { twists } => GrowthView::Twist { twists: twists@ },
        GrowthInstruction::Mark { name } => GrowthView::Mark { name: name@ },
        GrowthInstruction::Join { name } => GrowthView::Join { name: name@ },
    }
}

pub open spec fn view_growths(s: Seq<GrowthInstruction>) -> Seq<GrowthView>
    decreases s,
{
    if s.len() == 0 {
        Seq::empty()
    } else {
        seq![view_growth(s[0])] + view_growths(s.subrange(1, s.len() as int))
    }
}

pub open spec fn view_face_pairs(s: Seq<(Face, GrowthInstruction)>) -> Seq<(Face, GrowthView)>
    decreases s,
{
    if s.len() == 0 {
        Seq::empty()
    } else {
        seq![(s[0].0, view_growth(s[0].1))] + view_face_pairs(s.subrange(1, s.len() as int))
    }
}

pub broadcast proof fn lemma_view_growths(s: Seq<GrowthInstruction>)
    ensures
        (#[trigger] view_growths(s)).len() == s.len(),
        forall|i: int| 0 <= i < s.len() ==> view_growths(s)[i] == view_growth(s[i]),
    decreases s,
{
    if s.len() > 0 {
        lemma_view_growths(s.subrange(1, s.len() as int));
    }
}

pub broadcast proof fn lemma_view_face_pairs(s: Seq<(Face, GrowthInstruction)>)
    ensures
        (#[trigger] view_face_pairs(s)).len() == s.len(),
        forall|i: int| 0 <= i < s.len() ==> view_face_pairs(s)[i] == (s[i].0, view_growth(s[i].1)),
    decreases s,
{
    if s.len() > 0 {
        lemma_view_face_pairs(s.subrange(1, s.len() as int));
    }
}

impl View for GrowthInstruction {
    type V = GrowthView;

    open spec fn view(&self) -> GrowthView {
        view_growth(*self)
    }
}

/// The build portion of a fabric plan; each field settable at most once.
#[derive(Debug)]
pub struct BuildPhase {
    pub seed: Option<SeedType>,
    pub scale: Option<Decimal>,
    pub vulcanize: Option<VulcanizeType>,
    pub growth: Option<GrowthInstruction>,
}

pub ghost struct BuildPhaseView {
    pub seed: Option<SeedType>,
    pub scale: Option<Decimal>,
    pub vulcanize: Option<VulcanizeType>,
    pub growth: Option<GrowthView>,
}

impl View for BuildPhase {
    type V = BuildPhaseView;

    open spec fn view(&self) -> BuildPhaseView {
        BuildPhaseView {
            seed: self.seed,
            scale: self.scale,
            vulcanize: self.vulcanize,
            growth: match &self.growth {
                Some(g) => Some(view_growth(*g)),
                None => None,
            },
        }
    }
}

/// The validated build plan: the front end's sole durable output.
#[derive(Debug)]
pub struct Fabric {
    pub name: Option<String>,
    pub scale: Option<Decimal>,
    pub features: Vec<(String, Value)>,
    pub build_phase: BuildPhase,
}

pub ghost struct FabricView {
    pub name: Option<Seq<char>>,
    pub scale: Option<Decimal>,
    pub features: Seq<(Seq<char>, ValueView)>,
    pub build_phase: BuildPhaseView,
}

/// The mathematical value of a feature list: keyed pairs in order.
pub open spec fn feats_view(s: Seq<(String, Value)>) -> Seq<(Seq<char>, ValueView)> {
    Seq::new(s.len(), |i: int| (s[i].0@, s[i].1@))
}

impl View for Fabric {
    type V = FabricView;

    open spec fn view(&self) -> FabricView {
        FabricView {
            name: match &self.name {
                Some(s) => Some(s@),
                None => None,
            },
            scale: self.scale,
            features: feats_view(self.features@),
            build_phase: self.build_phase@,
        }
    }
}

/// The empty fabric every interpretation starts from.
pub open spec fn empty_fabric() -> FabricView {
    FabricView {
        name: None,
        scale: None,
        features: Seq::empty(),
        build_phase: BuildPhaseView { seed: None, scale: None, vulcanize: None, growth: None },
    }
}

#[derive(Debug)]
pub enum ErrorKind {
    Mismatch { rule: &'static str, expected: &'static str, sexp: Sexp },
    BadCall { context: &'static str, expected: &'static str, sexp: Sexp },
    TypeError { expected: &'static str, sexp: Sexp },
    AlreadyDefined { property: &'static str, sexp: Sexp },
    IllegalCall { context: &'static str, sexp: Sexp },
}

pub ghost enum ErrorKindView {
    Mismatch { rule: Seq<char>, expected: Seq<char>, sexp: SexpView },
    BadCall { context: Seq<char>, expected: Seq<char>, sexp: SexpView },
    TypeError { expected: Seq<char>, sexp: SexpView },
    AlreadyDefined { property: Seq<char>, sexp: SexpView },
    IllegalCall { context: Seq<char>, sexp: SexpView },
}

impl View for ErrorKind {
    type V = ErrorKindView;

    open spec fn view(&self) -> ErrorKindView {
        match self {
            ErrorKind::Mismatch { rule, expected, sexp } => ErrorKindView::Mismatch {
                rule: rule@,
                expected: expected@,
                sexp: sexp@,
            },
            ErrorKind::BadCall { context, expected, sexp } => ErrorKindView::BadCall {
                context: context@,
                expected: expected@,
                sexp: sexp@,
            },
            ErrorKind::TypeError { expected, sexp } => ErrorKindView::TypeError {
                expected: expected@,
                sexp: sexp@,
            },
            ErrorKind::AlreadyDefined { property, sexp } => ErrorKindView::AlreadyDefined {
                property: property@,
                sexp: sexp@,
            },
            ErrorKind::IllegalCall { context, sexp } => ErrorKindView::IllegalCall {
                context: context@,
                sexp: sexp@,
            },
        }
    }
}

/// A semantic fault: the first rule the tree breaks, with the offending
/// sub-expression.
#[derive(Debug)]
pub struct InterpretError {
    pub kind: ErrorKind,
}

pub ghost struct InterpretErrorView {
    pub kind: ErrorKindView,
}

impl View for InterpretError {
    type V = InterpretErrorView;

    open spec fn view(&self) -> InterpretErrorView {
        InterpretErrorView { kind: self.kind@ }
    }
}

// ---------------------------------------------------------------------------
// Specification of the interpretation
// ---------------------------------------------------------------------------

/// Split a form into its head identifier and argument tail, or say which of
/// the three shape rules it breaks.
pub open spec fn expect_call_spec(rule: Seq<char>, s: SexpView) -> Result<
    (Seq<char>, Seq<SexpView>),
    ErrorKindView,
> {
    match s {
        SexpView::List(terms) => {
            if terms.len() == 0 {
                Err(ErrorKindView::Mismatch { rule, expected: "(<head> ..)"@, sexp: s })
            } else {
                match terms[0] {
                    SexpView::Ident(h) => Ok((h, terms.subrange(1, terms.len() as int))),
                    _ => Err(ErrorKindView::Mismatch { rule, expected: "(<head:ident> ..)"@, sexp: s }),
                }
            }
        },
        _ => Err(ErrorKindView::Mismatch { rule, expected: "( .. )"@, sexp: s }),
    }
}

/// Decode one literal argument into a feature value.
pub open spec fn literal_spec(s: SexpView) -> Result<ValueView, ErrorKindView> {
    match s {
        SexpView::Literal(l) => Ok(
            match l {
                LiteralView::Atom(t) => ValueView::Atom(t),
                LiteralView::Str(t) => ValueView::Str(t),
                LiteralView::Integer(n) => ValueView::Integer(n),
                LiteralView::Float(d) => ValueView::Float(d),
                LiteralView::Percent(d) => ValueView::Percent(d),
            },
        ),
        _ => Err(
            ErrorKindView::Mismatch {
                rule: "literal"@,
                expected: "<atom|string|integer|float|percent>"@,
                sexp: s,
            },
        ),
    }
}

/// Set a feature key: overwrite in place if present, else append.
pub open spec fn assoc_set(
    s: Seq<(Seq<char>, ValueView)>,
    k: Seq<char>,
    v: ValueView,
) -> Seq<(Seq<char>, ValueView)>
    decreases s,
{
    if s.len() == 0 {
        seq![(k, v)]
    } else if s[0].0 == k {
        seq![(k, v)] + s.subrange(1, s.len() as int)
    } else {
        seq![s[0]] + assoc_set(s.subrange(1, s.len() as int), k, v)
    }
}

/// The face an atom names, if any.
pub open spec fn face_of(name: Seq<char>) -> Option<Face> {
    if name == "A"@ {
        Some(Face::A)
    } else if name == "B"@ {
        Some(Face::B)
    } else if name == "C"@ {
        Some(Face::C)
    } else if name == "D"@ {
        Some(Face::D)
    } else if name == "a"@ {
        Some(Face::a)
    } else if name == "b"@ {
        Some(Face::b)
    } else if name == "c"@ {
        Some(Face::c)
    } else if name == "d"@ {
        Some(Face::d)
    } else {
        None
    }
}

pub open spec fn branch_has_face(faces: Seq<(Face, GrowthView)>, f: Face) -> bool {
    exists|i: int| 0 <= i < faces.len() && faces[i].0 == f
}

/// Is `s` a call whose head is `h`?
pub open spec fn is_call_with_head(s: SexpView, h: Seq<char>) -> bool {
    match s {
        SexpView::List(terms) => terms.len() > 0 && terms[0] == SexpView::Ident(h),
        _ => false,
    }
}

/// One growth instruction: the grammar of `grow`, `branch`, `twist`,
/// `mark` and `join` forms.
pub open spec fn growth_spec(s: SexpView) -> Result<GrowthView, ErrorKindView>
    decreases s, 0int,
{
    match expect_call_spec("growth"@, s) {
        Err(e) => Err(e),
        Ok((head, tail)) => {
            if head == "grow"@ {
                if tail.len() < 1 {
                    Err(
                        ErrorKindView::BadCall {
                            context: "grow"@,
                            expected: "(grow <face> ..)"@,
                            sexp: s,
                        },
                    )
                } else {
                    match tail[0] {
                        SexpView::Literal(LiteralView::Atom(a)) => {
                            match face_of(a) {
                                Some(face) => {
                                    match grow_fold(
                                        None,
                                        Seq::empty(),
                                        tail.subrange(1, tail.len() as int),
                                        0,
                                    ) {
                                        Ok((repeat, instructions)) => Ok(
                                            GrowthView::Grow { face, repeat, instructions },
                                        ),
                                        Err(e) => Err(e),
                                    }
                                },
                                None => Err(
                                    ErrorKindView::TypeError {
                                        expected: "A|B|C|D|a|b|c|d"@,
                                        sexp: tail[0],
                                    },
                                ),
                            }
                        },
                        _ => Err(
                            ErrorKindView::TypeError { expected: "A|B|C|D|a|b|c|d"@, sexp: tail[0] },
                        ),
                    }
                }
            } else if head == "branch"@ {
                match branch_fold(Seq::empty(), tail, 0) {
                    Ok(faces) => Ok(GrowthView::Branch { faces }),
                    Err(e) => Err(e),
                }
            } else if head == "twist"@ {
                match twist_fold(Seq::empty(), tail, 0) {
                    Ok(twists) => Ok(GrowthView::Twist { twists }),
                    Err(e) => Err(e),
                }
            } else if head == "mark"@ {
                if tail.len() == 1 && tail[0] is Literal && tail[0]->Literal_0 is Atom {
                    Ok(GrowthView::Mark { name: tail[0]->Literal_0->Atom_0 })
                } else {
                    Err(
                        ErrorKindView::BadCall {
                            context: "mark"@,
                            expected: "(mark <atom>)"@,
                            sexp: s,
                        },
                    )
                }
            } else if head == "join"@ {
                if tail.len() == 1 && tail[0] is Literal && tail[0]->Literal_0 is Atom {
                    Ok(GrowthView::Join { name: tail[0]->Literal_0->Atom_0 })
                } else {
                    Err(
                        ErrorKindView::BadCall {
                            context: "join"@,
                            expected: "(join <atom>)"@,
                            sexp: s,
                        },
                    )
                }
            } else {
                Err(ErrorKindView::IllegalCall { context: "growth instruction"@, sexp: s })
            }
        },
    }
}

/// The arguments of `grow` after the face: at most one `(repeat <count>)`
/// keyed sub-call, every other argument a nested instruction in order.
pub open spec fn grow_fold(
    repeat: Option<usize>,
    instructions: Seq<GrowthView>,
    terms: Seq<SexpView>,
    i: int,
) -> Result<(Option<usize>, Seq<GrowthView>), ErrorKindView>
    decreases terms, terms.len() - i,
{
    if i < 0 || i >= terms.len() {
        Ok((repeat, instructions))
    } else {
        let t = terms[i];
        if is_call_with_head(t, "repeat"@) {
            if repeat is Some {
                Err(ErrorKindView::AlreadyDefined { property: "repeat"@, sexp: t })
            } else {
                let args = t->List_0.subrange(1, t->List_0.len() as int);
                if args.len() == 1 && args[0] is Literal && args[0]->Literal_0 is Integer
                    && 0 <= args[0]->Literal_0->Integer_0 && args[0]->Literal_0->Integer_0
                    <= usize::MAX {
                    grow_fold(
                        Some(args[0]->Literal_0->Integer_0 as usize),
                        instructions,
                        terms,
                        i + 1,
                    )
                } else {
                    Err(
                        ErrorKindView::BadCall {
                            context: "grow"@,
                            expected: "(repeat <count>)"@,
                            sexp: t,
                        },
                    )
                }
            }
        } else {
            match growth_spec(t) {
                Ok(g) => grow_fold(repeat, instructions + seq![g], terms, i + 1),
                Err(e) => Err(e),
            }
        }
    }
}

/// The arms of `branch`: `(face <face> [<instruction>])` forms, each face at
/// most once.
pub open spec fn branch_fold(
    faces: Seq<(Face, GrowthView)>,
    terms: Seq<SexpView>,
    i: int,
) -> Result<Seq<(Face, GrowthView)>, ErrorKindView>
    decreases terms, terms.len() - i,
{
    if i < 0 || i >= terms.len() {
        Ok(faces)
    } else {
        let t = terms[i];
        match expect_call_spec("branch"@, t) {
            Err(e) => Err(e),
            Ok((head, args)) => {
                if head != "face"@ {
                    Err(ErrorKindView::IllegalCall { context: "branch"@, sexp: t })
                } else if args.len() < 1 || args.len() > 2 {
                    Err(
                        ErrorKindView::BadCall {
                            context: "branch"@,
                            expected: "(face <face> <instruction>)"@,
                            sexp: t,
                        },
                    )
                } else if !(args[0] is Literal && args[0]->Literal_0 is Atom && face_of(
                    args[0]->Literal_0->Atom_0,
                ) is Some) {
                    Err(ErrorKindView::TypeError { expected: "A|B|C|D|a|b|c|d"@, sexp: args[0] })
                } else {
                    let face = face_of(args[0]->Literal_0->Atom_0)->0;
                    if branch_has_face(faces, face) {
                        Err(ErrorKindView::AlreadyDefined { property: "face"@, sexp: t })
                    } else if args.len() == 2 {
                        match growth_spec(args[1]) {
                            Ok(g) => branch_fold(faces + seq![(face, g)], terms, i + 1),
                            Err(e) => Err(e),
                        }
                    } else {
                        branch_fold(faces + seq![(face, GrowthView::Noop)], terms, i + 1)
                    }
                }
            },
        }
    }
}

/// One definition inside `(build ...)`.
pub open spec fn build_step(f: FabricView, s: SexpView) -> Result<FabricView, ErrorKindView> {
    match expect_call_spec("build"@, s) {
        Err(e) => Err(e),
        Ok((head, tail)) => {
            let bp = f.build_phase;
            if head == "seed"@ {
                if bp.seed is Some {
                    Err(ErrorKindView::AlreadyDefined { property: "seed"@, sexp: s })
                } else if tail.len() != 1 {
                    Err(
                        ErrorKindView::BadCall {
                            context: "build phase"@,
                            expected: "(seed <value>)"@,
                            sexp: s,
                        },
                    )
                } else if tail[0] is Literal && tail[0]->Literal_0 is Atom && tail[0]->Literal_0->Atom_0
                    == "left"@ {
                    Ok(FabricView { build_phase: BuildPhaseView { seed: Some(SeedType::Left), ..bp }, ..f })
                } else if tail[0] is Literal && tail[0]->Literal_0 is Atom && tail[0]->Literal_0->Atom_0
                    == "left-right"@ {
                    Ok(
                        FabricView {
                            build_phase: BuildPhaseView { seed: Some(SeedType::LeftRight), ..bp },
                            ..f
                        },
                    )
                } else {
                    Err(ErrorKindView::TypeError { expected: "left|left-right"@, sexp: tail[0] })
                }
            } else if head == "vulcanize"@ {
                if bp.vulcanize is Some {
                    Err(ErrorKindView::AlreadyDefined { property: "vulcanize"@, sexp: s })
                } else if tail.len() != 1 {
                    Err(
                        ErrorKindView::BadCall {
                            context: "build phase"@,
                            expected: "(vulcanize <value>)"@,
                            sexp: s,
                        },
                    )
                } else if tail[0] is Literal && tail[0]->Literal_0 is Atom && tail[0]->Literal_0->Atom_0
                    == "bowtie"@ {
                    Ok(
                        FabricView {
                            build_phase: BuildPhaseView { vulcanize: Some(VulcanizeType::Bowtie), ..bp },
                            ..f
                        },
                    )
                } else if tail[0] is Literal && tail[0]->Literal_0 is Atom && tail[0]->Literal_0->Atom_0
                    == "snelson"@ {
                    Ok(
                        FabricView {
                            build_phase: BuildPhaseView { vulcanize: Some(VulcanizeType::Snelson), ..bp },
                            ..f
                        },
                    )
                } else {
                    Err(ErrorKindView::TypeError { expected: "bowtie|snelson"@, sexp: tail[0] })
                }
            } else if head == "scale"@ {
                if bp.scale is Some {
                    Err(ErrorKindView::AlreadyDefined { property: "scale"@, sexp: s })
                } else if tail.len() == 1 && tail[0] is Literal && tail[0]->Literal_0 is Percent {
                    Ok(
                        FabricView {
                            build_phase: BuildPhaseView {
                                scale: Some(tail[0]->Literal_0->Percent_0),
                                ..bp
                            },
                            ..f
                        },
                    )
                } else {
                    Err(
                        ErrorKindView::BadCall {
                            context: "build phase"@,
                            expected: "(scale <percent>)"@,
                            sexp: s,
                        },
                    )
                }
            } else if head == "grow"@ || head == "branch"@ {
                if bp.growth is Some {
                    Err(ErrorKindView::AlreadyDefined { property: "growth"@, sexp: s })
                } else {
                    match growth_spec(s) {
                        Ok(g) => Ok(
                            FabricView { build_phase: BuildPhaseView { growth: Some(g), ..bp }, ..f },
                        ),
                        Err(e) => Err(e),
                    }
                }
            } else {
                Err(ErrorKindView::IllegalCall { context: "build phase"@, sexp: s })
            }
        },
    }
}

/// The definitions of `(build ...)`, left to right.
pub open spec fn build_fold(f: FabricView, terms: Seq<SexpView>, i: int) -> Result<
    FabricView,
    ErrorKindView,
>
    decreases terms.len() - i,
{
    if i < 0 || i >= terms.len() {
        Ok(f)
    } else {
        match build_step(f, terms[i]) {
            Ok(f2) => build_fold(f2, terms, i + 1),
            Err(e) => Err(e),
        }
    }
}

/// The entries of `(features ...)`, left to right; a repeated key silently
/// overwrites.
pub open spec fn features_fold(f: FabricView, terms: Seq<SexpView>, i: int) -> Result<
    FabricView,
    ErrorKindView,
>
    decreases terms.len() - i,
{
    if i < 0 || i >= terms.len() {
        Ok(f)
    } else {
        let t = terms[i];
        match expect_call_spec("features"@, t) {
            Err(e) => Err(e),
            Ok((key, args)) => {
                if args.len() != 1 {
                    Err(
                        ErrorKindView::BadCall {
                            context: "features"@,
                            expected: "(<feature-name> <value>)"@,
                            sexp: t,
                        },
                    )
                } else {
                    match literal_spec(args[0]) {
                        Err(e) => Err(e),
                        Ok(v) => features_fold(
                            FabricView { features: assoc_set(f.features, key, v), ..f },
                            terms,
                            i + 1,
                        ),
                    }
                }
            },
        }
    }
}

/// One definition inside `(fabric ...)`.
pub open spec fn fabric_step(f: FabricView, s: SexpView) -> Result<FabricView, ErrorKindView> {
    match expect_call_spec("fabric"@, s) {
        Err(e) => Err(e),
        Ok((head, tail)) => {
            if head == "scale"@ {
                if f.scale is Some {
                    Err(ErrorKindView::AlreadyDefined { property: "scale"@, sexp: s })
                } else if tail.len() == 1 && tail[0] is Literal && tail[0]->Literal_0 is Percent
                    && tail[0]->Literal_0->Percent_0.exponent <= u32::MAX - 2 {
                    let d = tail[0]->Literal_0->Percent_0;
                    Ok(
                        FabricView {
                            scale: Some(
                                Decimal { mantissa: d.mantissa, exponent: (d.exponent + 2) as u32 },
                            ),
                            ..f
                        },
                    )
                } else {
                    Err(
                        ErrorKindView::BadCall {
                            context: "fabric def"@,
                            expected: "(scale <percent>)"@,
                            sexp: s,
                        },
                    )
                }
            } else if head == "name"@ {
                if f.name is Some {
                    Err(ErrorKindView::AlreadyDefined { property: "name"@, sexp: s })
                } else if tail.len() == 1 && tail[0] is Literal && tail[0]->Literal_0 is Str {
                    Ok(FabricView { name: Some(tail[0]->Literal_0->Str_0), ..f })
                } else {
                    Err(
                        ErrorKindView::BadCall {
                            context: "fabric def"@,
                            expected: "(name <string>)"@,
                            sexp: s,
                        },
                    )
                }
            } else if head == "features"@ {
                features_fold(f, tail, 0)
            } else if head == "build"@ {
                build_fold(f, tail, 0)
            } else if head == "shape"@ || head == "pretense"@ {
                Ok(f)
            } else {
                Err(ErrorKindView::IllegalCall { context: "fabric def"@, sexp: s })
            }
        },
    }
}

/// The definitions of the top-level `(fabric ...)` form, left to right.
pub open spec fn fabric_fold(f: FabricView, terms: Seq<SexpView>, i: int) -> Result<
    FabricView,
    ErrorKindView,
>
    decreases terms.len() - i,
{
    if i < 0 || i >= terms.len() {
        Ok(f)
    } else {
        match fabric_step(f, terms[i]) {
            Ok(f2) => fabric_fold(f2, terms, i + 1),
            Err(e) => Err(e),
        }
    }
}

/// What interpreting a tree yields: the top level must be `(fabric <def>..)`,
/// and every definition must follow the grammar, else the first fault.
pub open spec fn fabric_spec(s: SexpView) -> Result<FabricView, ErrorKindView> {
    match expect_call_spec("fabric"@, s) {
        Err(e) => Err(e),
        Ok((head, tail)) => {
            if head != "fabric"@ {
                Err(ErrorKindView::Mismatch { rule: "fabric"@, expected: "(fabric ..)"@, sexp: s })
            } else {
                fabric_fold(empty_fabric(), tail, 0)
            }
        },
    }
}

/// What `interpret_sexp` yields on a tree.
pub open spec fn interpret_sexp_result(s: SexpView) -> Result<FabricView, InterpretErrorView> {
    match fabric_spec(s) {
        Ok(f) => Ok(f),
        Err(k) => Err(InterpretErrorView { kind: k }),
    }
}

/// The arguments of `twist`: atoms naming chirality steps, in order.
pub open spec fn twist_fold(
    twists: Seq<Twist>,
    terms: Seq<SexpView>,
    i: int,
) -> Result<Seq<Twist>, ErrorKindView>
    decreases terms.len() - i,
{
    if i < 0 || i >= terms.len() {
        Ok(twists)
    } else {
        let t = terms[i];
        if t is Literal && t->Literal_0 is Atom && t->Literal_0->Atom_0 == "continue"@ {
            twist_fold(twists + seq![Twist::Continue], terms, i + 1)
        } else if t is Literal && t->Literal_0 is Atom && t->Literal_0->Atom_0 == "switch"@ {
            twist_fold(twists + seq![Twist::Switch], terms, i + 1)
        } else {
            Err(ErrorKindView::TypeError { expected: "continue|switch"@, sexp: t })
        }
    }
}

/// What `interpret_sexp` yields, under the unified error type.
pub open spec fn interpret_sexp_full(s: SexpView) -> Result<FabricView, crate::error::ErrorView> {
    match interpret_sexp_result(s) {
        Ok(f) => Ok(f),
        Err(e) => Err(crate::error::ErrorView::InterpretError(e)),
    }
}

/// What `interpret` yields on source text: scan, parse, then build; the
/// first fault of the first failing stage wins.
pub open spec fn interpret_result(source: Seq<char>) -> Result<FabricView, crate::error::ErrorView> {
    match crate::sexp::parse_result(source) {
        Err(e) => Err(e),
        Ok(s) => interpret_sexp_full(s),
    }
}

/// Interpret a parsed tree into a validated `Fabric`.
pub fn interpret_sexp(sexp: &Sexp) -> (r: Result<Fabric, crate::error::Error>)
    ensures
        match r {
            Ok(f) => interpret_sexp_full(sexp@) == Ok::<_, crate::error::ErrorView>(f@),
            Err(e) => interpret_sexp_full(sexp@) == Err::<FabricView, _>(e@),
        },
{
    match builder::interpret(sexp) {
        Ok(f) => Ok(f),
        Err(e) => Err(crate::error::Error::InterpretError(e)),
    }
}

/// Interpret source text into a validated `Fabric`: the whole front end.
pub fn interpret(source: &str) -> (r: Result<Fabric, crate::error::Error>)
    ensures
        match r {
            Ok(f) => interpret_result(source@) == Ok::<_, crate::error::ErrorView>(f@),
            Err(e) => interpret_result(source@) == Err::<FabricView, _>(e@),
        },
{
    match crate::sexp::parse(source) {
        Err(e) => Err(e),
        Ok(s) => interpret_sexp(&s),
    }
}

} // verus!
