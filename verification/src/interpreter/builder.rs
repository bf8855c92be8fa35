//! The executable walk that turns an s-expression tree into a `Fabric`,
//! proved to return exactly what the interpretation specification says.
use crate::interpreter::BuildPhase;
use crate::interpreter::ErrorKind;
use crate::interpreter::Fabric;
use crate::interpreter::Face;
use crate::interpreter::GrowthInstruction;
use crate::interpreter::InterpretError;
use crate::interpreter::SeedType;
use crate::interpreter::Twist;
use crate::interpreter::Value;
use crate::interpreter::VulcanizeType;
use crate::interpreter::branch_fold;
use crate::interpreter::branch_has_face;
use crate::interpreter::build_fold;
use crate::interpreter::build_step;
use crate::interpreter::expect_call_spec;
use crate::interpreter::fabric_fold;
use crate::interpreter::fabric_spec;
use crate::interpreter::fabric_step;
use crate::interpreter::face_of;
use crate::interpreter::features_fold;
use crate::interpreter::grow_fold;
use crate::interpreter::growth_spec;
use crate::interpreter::interpret_sexp_result;
use crate::interpreter::is_call_with_head;
use crate::interpreter::literal_spec;
use crate::interpreter::twist_fold;
use crate::interpreter::assoc_set;
use crate::interpreter::empty_fabric;
use crate::interpreter::lemma_view_face_pairs;
use crate::interpreter::lemma_view_growths;
use crate::interpreter::view_face_pairs;
use crate::interpreter::view_growth;
use crate::interpreter::view_growths;
use crate::interpreter::ErrorKindView;
use crate::interpreter::FabricView;
use crate::interpreter::GrowthView;
use crate::interpreter::InterpretErrorView;
use crate::interpreter::ValueView;
use crate::sexp::Literal;
use crate::sexp::Sexp;
use crate::sexp::SexpView;
use crate::sexp::lemma_view_sexps;
use crate::sexp::view_sexp;
use crate::sexp::view_sexps;
use crate::interpreter::feats_view;
use vstd::prelude::*;
use vstd::string::StringExecFns;

verus! {

broadcast use
    vstd::std_specs::vec::axiom_vec_decreases_to_view,
    vstd::seq::axiom_seq_index_decreases,
    vstd::seq::axiom_seq_subrange_decreases,
    lemma_view_sexps,
    lemma_view_growths,
    lemma_view_face_pairs,
;

fn dup_literal(l: &Literal) -> (r: Literal)
    ensures
        r@ == l@,
{
    match l {
        Literal::Atom(s) => Literal::Atom(s.clone()),
        Literal::Str(s) => Literal::Str(s.clone()),
        Literal::Integer(n) => Literal::Integer(*n),
        Literal::Float(d) => Literal::Float(*d),
        Literal::Percent(d) => Literal::Percent(*d),
    }
}

/// An identical copy of a tree, down to its text.
#[verifier::loop_isolation(false)]
fn dup_sexp(s: &Sexp) -> (r: Sexp)
    ensures
        r@ == s@,
    decreases s,
{
    match s {
        Sexp::List { terms } => {
            let mut out: Vec<Sexp> = Vec::new();
            let mut i: usize = 0;
            let n = terms.len();
            while i < n
                invariant
                    i <= n,
                    n == terms@.len(),
                    out@.len() == i,
                    forall|k: int| 0 <= k < i ==> #[trigger] out@[k]@ == terms@[k]@,
                decreases n - i,
            {
                let t = dup_sexp(&terms[i]);
                out.push(t);
                i = i + 1;
            }
            proof {
                assert forall|k: int| 0 <= k < out@.len() implies view_sexps(out@)[k]
                    == view_sexps(terms@)[k] by {
                    lemma_view_sexps(out@);
                    lemma_view_sexps(terms@);
                    assert(out@[k]@ == terms@[k]@);
                    assert(view_sexps(out@)[k] == view_sexp(out@[k]));
                    assert(view_sexps(terms@)[k] == view_sexp(terms@[k]));
                }
                lemma_view_sexps(out@);
                lemma_view_sexps(terms@);
                assert(view_sexps(out@) =~= view_sexps(terms@));
            }
            Sexp::List { terms: out }
        },
        Sexp::Ident { name } => Sexp::Ident { name: name.clone() },
        Sexp::Literal { value } => Sexp::Literal { value: dup_literal(value) },
    }
}

/// Does this string hold exactly this text?
fn str_is(s: &String, lit: &str) -> (r: bool)
    ensures
        r == (s@ == lit@),
{
    s.eq(&String::from_str(lit))
}

/// The face an atom names, if any.
fn face_from(name: &String) -> (r: Option<Face>)
    ensures
        r == face_of(name@),
{
    if str_is(name, "A") {
        Some(Face::A)
    } else if str_is(name, "B") {
        Some(Face::B)
    } else if str_is(name, "C") {
        Some(Face::C)
    } else if str_is(name, "D") {
        Some(Face::D)
    } else if str_is(name, "a") {
        Some(Face::a)
    } else if str_is(name, "b") {
        Some(Face::b)
    } else if str_is(name, "c") {
        Some(Face::c)
    } else if str_is(name, "d") {
        Some(Face::d)
    } else {
        None
    }
}

/// The argument tail of a call form.
pub open spec fn call_tail(s: SexpView) -> Seq<SexpView> {
    s->List_0.subrange(1, s->List_0.len() as int)
}

/// Check the call shape of `s` and hand back its head identifier.
fn call_head(s: &Sexp, rule: &'static str) -> (r: Result<String, ErrorKind>)
    ensures
        match r {
            Ok(h) => expect_call_spec(rule@, s@) == Ok::<_, ErrorKindView>((h@, call_tail(s@))),
            Err(e) => expect_call_spec(rule@, s@) == Err::<(Seq<char>, Seq<SexpView>), _>(e@),
        },
{
    match s {
        Sexp::List { terms } => {
            if terms.len() == 0 {
                Err(ErrorKind::Mismatch { rule, expected: "(<head> ..)", sexp: dup_sexp(s) })
            } else {
                match &terms[0] {
                    Sexp::Ident { name } => {
                        proof {
                            assert(view_sexps(terms@)[0] == view_sexp(terms@[0]));
                        }
                        Ok(name.clone())
                    },
                    _ => Err(
                        ErrorKind::Mismatch { rule, expected: "(<head:ident> ..)", sexp: dup_sexp(s) },
                    ),
                }
            }
        },
        _ => Err(ErrorKind::Mismatch { rule, expected: "( .. )", sexp: dup_sexp(s) }),
    }
}

/// Decode one literal argument into a feature value.
fn literal_fn(s: &Sexp) -> (r: Result<Value, ErrorKind>)
    ensures
        match r {
            Ok(v) => literal_spec(s@) == Ok::<_, ErrorKindView>(v@),
            Err(e) => literal_spec(s@) == Err::<ValueView, _>(e@),
        },
{
    match s {
        Sexp::Literal { value } => Ok(
            match value {
                Literal::Atom(t) => Value::Atom(t.clone()),
                Literal::Str(t) => Value::Str(t.clone()),
                Literal::Integer(n) => Value::Integer(*n),
                Literal::Float(d) => Value::Float(*d),
                Literal::Percent(d) => Value::Percent(*d),
            },
        ),
        _ => Err(
            ErrorKind::Mismatch {
                rule: "literal",
                expected: "<atom|string|integer|float|percent>",
                sexp: dup_sexp(s),
            },
        ),
    }
}

/// Does the branch built so far already bind this face?
fn has_face(faces: &Vec<(Face, GrowthInstruction)>, f: Face) -> (r: bool)
    ensures
        r == branch_has_face(view_face_pairs(faces@), f),
{
    let mut i: usize = 0;
    let n = faces.len();
    while i < n
        invariant
            i <= n,
            n == faces@.len(),
            forall|k: int| 0 <= k < i ==> #[trigger] faces@[k].0 != f,
        decreases n - i,
    {
        if faces[i].0 == f {
            proof {
                assert(view_face_pairs(faces@)[i as int].0 == f);
            }
            return true;
        }
        i = i + 1;
    }
    proof {
        assert forall|k: int| 0 <= k < faces@.len() implies view_face_pairs(faces@)[k].0 != f by {
            assert(view_face_pairs(faces@)[k] == (faces@[k].0, view_growth(faces@[k].1)));
        }
    }
    false
}


/// Is `s` a call form whose head is this identifier?
fn is_call_named(s: &Sexp, lit: &str) -> (r: bool)
    ensures
        r == is_call_with_head(s@, lit@),
{
    match s {
        Sexp::List { terms } => {
            if terms.len() > 0 {
                proof {
                    assert(view_sexps(terms@)[0] == view_sexp(terms@[0]));
                }
                match &terms[0] {
                    Sexp::Ident { name } => str_is(name, lit),
                    _ => false,
                }
            } else {
                false
            }
        },
        _ => false,
    }
}

/// Replacing the first binding of a key rewrites exactly that slot.
proof fn lemma_assoc_found(s: Seq<(Seq<char>, ValueView)>, k: Seq<char>, v: ValueView, j: int)
    requires
        0 <= j < s.len(),
        s[j].0 == k,
        forall|m: int| 0 <= m < j ==> #[trigger] s[m].0 != k,
    ensures
        assoc_set(s, k, v) =~= s.update(j, (k, v)),
    decreases j,
{
    if j == 0 {
        assert(assoc_set(s, k, v) =~= s.update(0, (k, v)));
    } else {
        let rest = s.subrange(1, s.len() as int);
        assert(forall|m: int| 0 <= m < j - 1 ==> #[trigger] rest[m].0 != k);
        lemma_assoc_found(rest, k, v, j - 1);
        assert(assoc_set(s, k, v) =~= s.update(j, (k, v)));
    }
}

/// Setting an absent key appends it.
proof fn lemma_assoc_missing(s: Seq<(Seq<char>, ValueView)>, k: Seq<char>, v: ValueView)
    requires
        forall|m: int| 0 <= m < s.len() ==> #[trigger] s[m].0 != k,
    ensures
        assoc_set(s, k, v) =~= s + seq![(k, v)],
    decreases s,
{
    if s.len() > 0 {
        let rest = s.subrange(1, s.len() as int);
        lemma_assoc_missing(rest, k, v);
        assert(assoc_set(s, k, v) =~= s + seq![(k, v)]);
    }
}

/// Set a feature key: overwrite the first binding in place, else append.
#[verifier::loop_isolation(false)]
fn set_feature(features: &mut Vec<(String, Value)>, key: String, val: Value)
    ensures
        feats_view(final(features)@) == assoc_set(feats_view(old(features)@), key@, val@),
{
    let ghost fv0 = feats_view(features@);
    let n = features.len();
    let mut i: usize = 0;
    while i < n
        invariant
            i <= n,
            n == features@.len(),
            features@ == old(features)@,
            forall|m: int| 0 <= m < i ==> #[trigger] features@[m].0@ != key@,
        decreases n - i,
    {
        if str_is(&features[i].0, key.as_str()) {
            let ghost j = i as int;
            features.remove(i);
            features.insert(i, (key, val));
            proof {
                assert(features@ =~= old(features)@.update(j, features@[j]));
                assert forall|m: int| 0 <= m < j implies #[trigger] fv0[m].0 != key@ by {
                    assert(fv0[m].0 == old(features)@[m].0@);
                }
                lemma_assoc_found(fv0, key@, val@, j);
                assert(feats_view(features@) =~= fv0.update(j, (key@, val@)));
            }
            return ;
        }
        i = i + 1;
    }
    features.push((key, val));
    proof {
        assert forall|m: int| 0 <= m < fv0.len() implies #[trigger] fv0[m].0 != key@ by {
            assert(fv0[m].0 == old(features)@[m].0@);
        }
        lemma_assoc_missing(fv0, key@, val@);
        assert(feats_view(features@) =~= fv0 + seq![(key@, val@)]);
    }
}

/// One growth instruction parsed from a `grow`/`branch`/`twist`/`mark`/`join`
/// form.
#[verifier::loop_isolation(false)]
#[verifier::rlimit(100)]
fn growth_instr(s: &Sexp) -> (r: Result<GrowthInstruction, ErrorKind>)
    ensures
        match r {
            Ok(g) => growth_spec(s@) == Ok::<_, ErrorKindView>(g@),
            Err(e) => growth_spec(s@) == Err::<GrowthView, _>(e@),
        },
    decreases s,
{
    let head = match call_head(s, "growth") {
        Ok(h) => h,
        Err(e) => {
            return Err(e);
        },
    };
    let terms = match s {
        Sexp::List { terms } => terms,
        _ => {
            return Err(ErrorKind::Mismatch { rule: "growth", expected: "( .. )", sexp: dup_sexp(s) });
        },
    };
    let ghost tail = call_tail(s@);
    let n = terms.len();
    proof {
        assert(s@ == SexpView::List(view_sexps(terms@)));
        assert(tail.len() == n - 1);
        assert forall|k: int| 0 <= k < tail.len() implies tail[k] == view_sexp(
            terms@[k + 1],
        ) by {
            assert(tail[k] == view_sexps(terms@)[k + 1]);
        }
    }
    if str_is(&head, "grow") {
        if n < 2 {
            return Err(
                ErrorKind::BadCall { context: "grow", expected: "(grow <face> ..)", sexp: dup_sexp(s) },
            );
        }
        let face = match &terms[1] {
            Sexp::Literal { value: Literal::Atom(a) } => {
                match face_from(a) {
                    Some(f) => f,
                    None => {
                        return Err(
                            ErrorKind::TypeError { expected: "A|B|C|D|a|b|c|d", sexp: dup_sexp(&terms[1]) },
                        );
                    },
                }
            },
            _ => {
                return Err(
                    ErrorKind::TypeError { expected: "A|B|C|D|a|b|c|d", sexp: dup_sexp(&terms[1]) },
                );
            },
        };
        let ghost gterms = tail.subrange(1, tail.len() as int);
        proof {
            assert forall|k: int| 0 <= k < gterms.len() implies gterms[k] == view_sexp(
                terms@[k + 2],
            ) by {
                assert(gterms[k] == tail[k + 1]);
            }
        }
        let mut repeat: Option<usize> = None;
        let mut instructions: Vec<GrowthInstruction> = Vec::new();
        let mut i: usize = 2;
        while i < n
            invariant
                2 <= i <= n,
                n == terms@.len(),
                gterms.len() == n - 2,
                forall|k: int| 0 <= k < gterms.len() ==> gterms[k] == view_sexp(terms@[k + 2]),
                grow_fold(None, Seq::empty(), gterms, 0) == grow_fold(
                    repeat,
                    view_growths(instructions@),
                    gterms,
                    i - 2,
                ),
            decreases n - i,
        {
            let ghost gv0 = view_growths(instructions@);
            let t = &terms[i];
            let is_repeat = is_call_named(t, "repeat");
            proof {
                assert(gterms[i - 2] == view_sexp(terms@[i as int]));
            }
            if is_repeat {
                if repeat.is_some() {
                    return Err(ErrorKind::AlreadyDefined { property: "repeat", sexp: dup_sexp(t) });
                }
                let ts = match t {
                    Sexp::List { terms: ts } => ts,
                    _ => {
                        return Err(
                            ErrorKind::BadCall { context: "grow", expected: "(repeat <count>)", sexp: dup_sexp(t) },
                        );
                    },
                };
                proof {
                    assert(view_sexp(terms@[i as int]) == SexpView::List(view_sexps(ts@)));
                    lemma_view_sexps(ts@);
                    if ts@.len() >= 2 {
                        assert(view_sexps(ts@)[1] == view_sexp(ts@[1]));
                    }
                }
                let mut ok_count: Option<usize> = None;
                if ts.len() == 2 {
                    match &ts[1] {
                        Sexp::Literal { value: Literal::Integer(cnt) } => {
                            let cnt = *cnt;
                            if cnt >= 0 && (cnt as u64) <= (usize::MAX as u64) {
                                ok_count = Some(cnt as usize);
                            }
                        },
                        _ => {},
                    }
                }
                match ok_count {
                    Some(cnt) => {
                        repeat = Some(cnt);
                    },
                    None => {
                        return Err(
                            ErrorKind::BadCall { context: "grow", expected: "(repeat <count>)", sexp: dup_sexp(t) },
                        );
                    },
                }
            } else {
                match growth_instr(t) {
                    Ok(g) => {
                        instructions.push(g);
                        proof {
                            assert(view_growths(instructions@) =~= gv0 + seq![view_growth(
                                instructions@[instructions@.len() - 1],
                            )]);
                        }
                    },
                    Err(e) => {
                        return Err(e);
                    },
                }
            }
            i = i + 1;
        }
        Ok(GrowthInstruction::Grow { face, repeat, instructions })
    } else if str_is(&head, "branch") {
        let mut faces: Vec<(Face, GrowthInstruction)> = Vec::new();
        let mut i: usize = 1;
        while i < n
            invariant
                1 <= i <= n,
                n == terms@.len(),
                tail.len() == n - 1,
                forall|k: int| 0 <= k < tail.len() ==> tail[k] == view_sexp(terms@[k + 1]),
                branch_fold(Seq::empty(), tail, 0) == branch_fold(
                    view_face_pairs(faces@),
                    tail,
                    i - 1,
                ),
            decreases n - i,
        {
            let ghost fv0 = view_face_pairs(faces@);
            let t = &terms[i];
            let arm_head = match call_head(t, "branch") {
                Ok(h) => h,
                Err(e) => {
                    return Err(e);
                },
            };
            if !str_is(&arm_head, "face") {
                return Err(ErrorKind::IllegalCall { context: "branch", sexp: dup_sexp(t) });
            }
            let ts = match t {
                Sexp::List { terms: ts } => ts,
                _ => {
                    return Err(ErrorKind::IllegalCall { context: "branch", sexp: dup_sexp(t) });
                },
            };
            let ghost args = call_tail(t@);
            proof {
                assert(t@ == SexpView::List(view_sexps(ts@)));
                assert forall|k: int| 0 <= k < args.len() implies args[k] == view_sexp(
                    ts@[k + 1],
                ) by {
                    assert(args[k] == view_sexps(ts@)[k + 1]);
                }
            }
            if ts.len() < 2 || ts.len() > 3 {
                return Err(
                    ErrorKind::BadCall {
                        context: "branch",
                        expected: "(face <face> <instruction>)",
                        sexp: dup_sexp(t),
                    },
                );
            }
            let face = match &ts[1] {
                Sexp::Literal { value: Literal::Atom(a) } => {
                    match face_from(a) {
                        Some(f) => f,
                        None => {
                            return Err(
                                ErrorKind::TypeError { expected: "A|B|C|D|a|b|c|d", sexp: dup_sexp(&ts[1]) },
                            );
                        },
                    }
                },
                _ => {
                    return Err(
                        ErrorKind::TypeError { expected: "A|B|C|D|a|b|c|d", sexp: dup_sexp(&ts[1]) },
                    );
                },
            };
            if has_face(&faces, face) {
                return Err(ErrorKind::AlreadyDefined { property: "face", sexp: dup_sexp(t) });
            }
            let sub: GrowthInstruction = if ts.len() == 3 {
                match growth_instr(&ts[2]) {
                    Ok(g) => g,
                    Err(e) => {
                        return Err(e);
                    },
                }
            } else {
                GrowthInstruction::Noop
            };
            faces.push((face, sub));
            proof {
                assert(view_face_pairs(faces@) =~= fv0 + seq![(
                    faces@[faces@.len() - 1].0,
                    view_growth(faces@[faces@.len() - 1].1),
                )]);
            }
            i = i + 1;
        }
        Ok(GrowthInstruction::Branch { faces })
    } else if str_is(&head, "twist") {
        let mut twists: Vec<Twist> = Vec::new();
        let mut i: usize = 1;
        while i < n
            invariant
                1 <= i <= n,
                n == terms@.len(),
                tail.len() == n - 1,
                forall|k: int| 0 <= k < tail.len() ==> tail[k] == view_sexp(terms@[k + 1]),
                twist_fold(Seq::empty(), tail, 0) == twist_fold(twists@, tail, i - 1),
            decreases n - i,
        {
            let ghost tw0 = twists@;
            let t = &terms[i];
            match t {
                Sexp::Literal { value: Literal::Atom(a) } => {
                    if str_is(a, "continue") {
                        twists.push(Twist::Continue);
                        proof {
                            assert(twists@ =~= tw0 + seq![Twist::Continue]);
                        }
                    } else if str_is(a, "switch") {
                        twists.push(Twist::Switch);
                        proof {
                            assert(twists@ =~= tw0 + seq![Twist::Switch]);
                        }
                    } else {
                        return Err(
                            ErrorKind::TypeError { expected: "continue|switch", sexp: dup_sexp(t) },
                        );
                    }
                },
                _ => {
                    return Err(
                        ErrorKind::TypeError { expected: "continue|switch", sexp: dup_sexp(t) },
                    );
                },
            }
            i = i + 1;
        }
        Ok(GrowthInstruction::Twist { twists })
    } else if str_is(&head, "mark") {
        if n == 2 {
            match &terms[1] {
                Sexp::Literal { value: Literal::Atom(a) } => {
                    return Ok(GrowthInstruction::Mark { name: a.clone() });
                },
                _ => {},
            }
        }
        Err(ErrorKind::BadCall { context: "mark", expected: "(mark <atom>)", sexp: dup_sexp(s) })
    } else if str_is(&head, "join") {
        if n == 2 {
            match &terms[1] {
                Sexp::Literal { value: Literal::Atom(a) } => {
                    return Ok(GrowthInstruction::Join { name: a.clone() });
                },
                _ => {},
            }
        }
        Err(ErrorKind::BadCall { context: "join", expected: "(join <atom>)", sexp: dup_sexp(s) })
    } else {
        Err(ErrorKind::IllegalCall { context: "growth instruction", sexp: dup_sexp(s) })
    }
}

/// One definition inside `(build ...)`.
fn build_one(fab: Fabric, s: &Sexp) -> (r: Result<Fabric, ErrorKind>)
    ensures
        match r {
            Ok(f2) => build_step(fab@, s@) == Ok::<_, ErrorKindView>(f2@),
            Err(e) => build_step(fab@, s@) == Err::<FabricView, _>(e@),
        },
{
    let head = match call_head(s, "build") {
        Ok(h) => h,
        Err(e) => {
            return Err(e);
        },
    };
    let terms = match s {
        Sexp::List { terms } => terms,
        _ => {
            proof {
                assert(false);
            }
            return Err(ErrorKind::IllegalCall { context: "build phase", sexp: dup_sexp(s) });
        },
    };
    let ghost tail = call_tail(s@);
    let n = terms.len();
    proof {
        assert(s@ == SexpView::List(view_sexps(terms@)));
        assert forall|k: int| 0 <= k < tail.len() implies tail[k] == view_sexp(
            terms@[k + 1],
        ) by {
            assert(tail[k] == view_sexps(terms@)[k + 1]);
        }
    }
    let mut f = fab;
    if str_is(&head, "seed") {
        if f.build_phase.seed.is_some() {
            return Err(ErrorKind::AlreadyDefined { property: "seed", sexp: dup_sexp(s) });
        }
        if n != 2 {
            return Err(
                ErrorKind::BadCall { context: "build phase", expected: "(seed <value>)", sexp: dup_sexp(s) },
            );
        }
        match &terms[1] {
            Sexp::Literal { value: Literal::Atom(a) } => {
                if str_is(a, "left") {
                    f.build_phase.seed = Some(SeedType::Left);
                    Ok(f)
                } else if str_is(a, "left-right") {
                    f.build_phase.seed = Some(SeedType::LeftRight);
                    Ok(f)
                } else {
                    Err(ErrorKind::TypeError { expected: "left|left-right", sexp: dup_sexp(&terms[1]) })
                }
            },
            _ => Err(ErrorKind::TypeError { expected: "left|left-right", sexp: dup_sexp(&terms[1]) }),
        }
    } else if str_is(&head, "vulcanize") {
        if f.build_phase.vulcanize.is_some() {
            return Err(ErrorKind::AlreadyDefined { property: "vulcanize", sexp: dup_sexp(s) });
        }
        if n != 2 {
            return Err(
                ErrorKind::BadCall {
                    context: "build phase",
                    expected: "(vulcanize <value>)",
                    sexp: dup_sexp(s),
                },
            );
        }
        match &terms[1] {
            Sexp::Literal { value: Literal::Atom(a) } => {
                if str_is(a, "bowtie") {
                    f.build_phase.vulcanize = Some(VulcanizeType::Bowtie);
                    Ok(f)
                } else if str_is(a, "snelson") {
                    f.build_phase.vulcanize = Some(VulcanizeType::Snelson);
                    Ok(f)
                } else {
                    Err(ErrorKind::TypeError { expected: "bowtie|snelson", sexp: dup_sexp(&terms[1]) })
                }
            },
            _ => Err(ErrorKind::TypeError { expected: "bowtie|snelson", sexp: dup_sexp(&terms[1]) }),
        }
    } else if str_is(&head, "scale") {
        if f.build_phase.scale.is_some() {
            return Err(ErrorKind::AlreadyDefined { property: "scale", sexp: dup_sexp(s) });
        }
        if n == 2 {
            match &terms[1] {
                Sexp::Literal { value: Literal::Percent(d) } => {
                    f.build_phase.scale = Some(*d);
                    return Ok(f);
                },
                _ => {},
            }
        }
        Err(
            ErrorKind::BadCall { context: "build phase", expected: "(scale <percent>)", sexp: dup_sexp(s) },
        )
    } else if str_is(&head, "grow") || str_is(&head, "branch") {
        if f.build_phase.growth.is_some() {
            return Err(ErrorKind::AlreadyDefined { property: "growth", sexp: dup_sexp(s) });
        }
        match growth_instr(s) {
            Ok(g) => {
                f.build_phase.growth = Some(g);
                Ok(f)
            },
            Err(e) => Err(e),
        }
    } else {
        Err(ErrorKind::IllegalCall { context: "build phase", sexp: dup_sexp(s) })
    }
}

/// The definitions of `(build ...)`, left to right; `terms` is the whole
/// call form, head included.
#[verifier::loop_isolation(false)]
fn build_section(fab: Fabric, terms: &Vec<Sexp>) -> (r: Result<Fabric, ErrorKind>)
    requires
        terms@.len() >= 1,
    ensures
        ({
            let tail = view_sexps(terms@).subrange(1, view_sexps(terms@).len() as int);
            match r {
                Ok(f2) => build_fold(fab@, tail, 0) == Ok::<_, ErrorKindView>(f2@),
                Err(e) => build_fold(fab@, tail, 0) == Err::<FabricView, _>(e@),
            }
        }),
{
    let ghost f0 = fab@;
    let ghost tail = view_sexps(terms@).subrange(1, view_sexps(terms@).len() as int);
    proof {
        assert forall|k: int| 0 <= k < tail.len() implies tail[k] == view_sexp(
            terms@[k + 1],
        ) by {
            assert(tail[k] == view_sexps(terms@)[k + 1]);
        }
    }
    let n = terms.len();
    let mut cur = fab;
    let mut i: usize = 1;
    while i < n
        invariant
            1 <= i <= n,
            n == terms@.len(),
            build_fold(f0, tail, 0) == build_fold(cur@, tail, i - 1),
        decreases n - i,
    {
        cur = match build_one(cur, &terms[i]) {
            Ok(f2) => f2,
            Err(e) => {
                return Err(e);
            },
        };
        i = i + 1;
    }
    Ok(cur)
}

/// The entries of `(features ...)`, left to right; `terms` is the whole
/// call form, head included.
#[verifier::loop_isolation(false)]
fn features_section(fab: Fabric, terms: &Vec<Sexp>) -> (r: Result<Fabric, ErrorKind>)
    requires
        terms@.len() >= 1,
    ensures
        ({
            let tail = view_sexps(terms@).subrange(1, view_sexps(terms@).len() as int);
            match r {
                Ok(f2) => features_fold(fab@, tail, 0) == Ok::<_, ErrorKindView>(f2@),
                Err(e) => features_fold(fab@, tail, 0) == Err::<FabricView, _>(e@),
            }
        }),
{
    let ghost f0 = fab@;
    let ghost tail = view_sexps(terms@).subrange(1, view_sexps(terms@).len() as int);
    proof {
        assert forall|k: int| 0 <= k < tail.len() implies tail[k] == view_sexp(
            terms@[k + 1],
        ) by {
            assert(tail[k] == view_sexps(terms@)[k + 1]);
        }
    }
    let n = terms.len();
    let mut cur = fab;
    let mut i: usize = 1;
    while i < n
        invariant
            1 <= i <= n,
            n == terms@.len(),
            features_fold(f0, tail, 0) == features_fold(cur@, tail, i - 1),
        decreases n - i,
    {
        let t = &terms[i];
        let key = match call_head(t, "features") {
            Ok(h) => h,
            Err(e) => {
                return Err(e);
            },
        };
        let ts = match t {
            Sexp::List { terms: ts } => ts,
            _ => {
                proof {
                    assert(false);
                }
                return Err(ErrorKind::IllegalCall { context: "features", sexp: dup_sexp(t) });
            },
        };
        proof {
            assert(t@ == SexpView::List(view_sexps(ts@)));
            assert(call_tail(t@).len() == ts@.len() - 1);
            if ts@.len() >= 2 {
                assert(call_tail(t@)[0] == view_sexps(ts@)[1]);
                assert(view_sexps(ts@)[1] == view_sexp(ts@[1]));
            }
        }
        if ts.len() != 2 {
            return Err(
                ErrorKind::BadCall {
                    context: "features",
                    expected: "(<feature-name> <value>)",
                    sexp: dup_sexp(t),
                },
            );
        }
        let v = match literal_fn(&ts[1]) {
            Ok(v) => v,
            Err(e) => {
                return Err(e);
            },
        };
        set_feature(&mut cur.features, key, v);
        i = i + 1;
    }
    Ok(cur)
}

/// One definition inside `(fabric ...)`.
fn fabric_one(fab: Fabric, s: &Sexp) -> (r: Result<Fabric, ErrorKind>)
    ensures
        match r {
            Ok(f2) => fabric_step(fab@, s@) == Ok::<_, ErrorKindView>(f2@),
            Err(e) => fabric_step(fab@, s@) == Err::<FabricView, _>(e@),
        },
{
    let head = match call_head(s, "fabric") {
        Ok(h) => h,
        Err(e) => {
            return Err(e);
        },
    };
    let terms = match s {
        Sexp::List { terms } => terms,
        _ => {
            proof {
                assert(false);
            }
            return Err(ErrorKind::IllegalCall { context: "fabric def", sexp: dup_sexp(s) });
        },
    };
    let ghost tail = call_tail(s@);
    let n = terms.len();
    proof {
        assert(s@ == SexpView::List(view_sexps(terms@)));
        assert forall|k: int| 0 <= k < tail.len() implies tail[k] == view_sexp(
            terms@[k + 1],
        ) by {
            assert(tail[k] == view_sexps(terms@)[k + 1]);
        }
    }
    let mut f = fab;
    if str_is(&head, "scale") {
        if f.scale.is_some() {
            return Err(ErrorKind::AlreadyDefined { property: "scale", sexp: dup_sexp(s) });
        }
        if n == 2 {
            match &terms[1] {
                Sexp::Literal { value: Literal::Percent(d) } => {
                    if d.exponent <= u32::MAX - 2 {
                        f.scale = Some(d.div_100());
                        return Ok(f);
                    }
                },
                _ => {},
            }
        }
        Err(
            ErrorKind::BadCall { context: "fabric def", expected: "(scale <percent>)", sexp: dup_sexp(s) },
        )
    } else if str_is(&head, "name") {
        if f.name.is_some() {
            return Err(ErrorKind::AlreadyDefined { property: "name", sexp: dup_sexp(s) });
        }
        if n == 2 {
            match &terms[1] {
                Sexp::Literal { value: Literal::Str(t) } => {
                    f.name = Some(t.clone());
                    return Ok(f);
                },
                _ => {},
            }
        }
        Err(
            ErrorKind::BadCall { context: "fabric def", expected: "(name <string>)", sexp: dup_sexp(s) },
        )
    } else if str_is(&head, "features") {
        features_section(f, terms)
    } else if str_is(&head, "build") {
        build_section(f, terms)
    } else if str_is(&head, "shape") || str_is(&head, "pretense") {
        Ok(f)
    } else {
        Err(ErrorKind::IllegalCall { context: "fabric def", sexp: dup_sexp(s) })
    }
}

/// The top-level walk: `s` must be `(fabric <def>..)`.
#[verifier::loop_isolation(false)]
fn fabric_fn(s: &Sexp) -> (r: Result<Fabric, ErrorKind>)
    ensures
        match r {
            Ok(f) => fabric_spec(s@) == Ok::<_, ErrorKindView>(f@),
            Err(e) => fabric_spec(s@) == Err::<FabricView, _>(e@),
        },
{
    let head = match call_head(s, "fabric") {
        Ok(h) => h,
        Err(e) => {
            return Err(e);
        },
    };
    if !str_is(&head, "fabric") {
        return Err(
            ErrorKind::Mismatch { rule: "fabric", expected: "(fabric ..)", sexp: dup_sexp(s) },
        );
    }
    let terms = match s {
        Sexp::List { terms } => terms,
        _ => {
            proof {
                assert(false);
            }
            return Err(ErrorKind::IllegalCall { context: "fabric def", sexp: dup_sexp(s) });
        },
    };
    let ghost tail = call_tail(s@);
    let n = terms.len();
    proof {
        assert(s@ == SexpView::List(view_sexps(terms@)));
        assert forall|k: int| 0 <= k < tail.len() implies tail[k] == view_sexp(
            terms@[k + 1],
        ) by {
            assert(tail[k] == view_sexps(terms@)[k + 1]);
        }
    }
    let mut cur = Fabric {
        name: None,
        scale: None,
        features: Vec::new(),
        build_phase: BuildPhase { seed: None, scale: None, vulcanize: None, growth: None },
    };
    proof {
        assert(cur@.features =~= empty_fabric().features);
        assert(cur@ == empty_fabric());
    }
    let mut i: usize = 1;
    while i < n
        invariant
            1 <= i <= n,
            n == terms@.len(),
            fabric_fold(empty_fabric(), tail, 0) == fabric_fold(cur@, tail, i - 1),
        decreases n - i,
    {
        cur = match fabric_one(cur, &terms[i]) {
            Ok(f2) => f2,
            Err(e) => {
                return Err(e);
            },
        };
        i = i + 1;
    }
    Ok(cur)
}

/// Interpret an s-expression tree into a validated `Fabric`, or report the
/// first rule it breaks.
pub fn interpret(sexp: &Sexp) -> (r: Result<Fabric, InterpretError>)
    ensures
        match r {
            Ok(f) => interpret_sexp_result(sexp@) == Ok::<_, InterpretErrorView>(f@),
            Err(e) => interpret_sexp_result(sexp@) == Err::<FabricView, _>(e@),
        },
{
    match fabric_fn(sexp) {
        Ok(f) => Ok(f),
        Err(k) => Err(InterpretError { kind: k }),
    }
}

} // verus!
