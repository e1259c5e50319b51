//! Breaking-change detection between two compiled modules.
//!
//! Compares an old and a new [`Module`] and reports violations at three levels:
//! - `Error`: wire-breaking (field number changed, type changed, field removed)
//! - `Warning`: breaking for JSON or generated code (field renamed, optionality changed, rpc removed)
//! - `Info`: safe changes (new fields, new types)
//!
//! Declarations are matched by key as a map built from each list would
//! match them: where a key occurs more than once, the last occurrence counts.

use vstd::prelude::*;
use crate::ir::{
    Enum, EnumValue, Field, Module, OneofField, OneofGroup, Rpc, RpcParam, Service, Type,
    TypeRefKind, TypeReference, enum_same, field_same, module_same, oneof_same, opt_param_same, opt_ref_same, ref_same,
    service_same, type_same,
};

verus! {

// ── Violations ─────────────────────────────────────────────────────────

/// How serious a change is.
#[derive(Debug, Clone, Copy, PartialEq, Eq, Structural)]
pub enum Level {
    Error,
    Warning,
    Info,
}

/// One reported change.
#[derive(Debug, Clone)]
pub struct Violation {
    pub level: Level,
    pub code: &'static str,
    pub message: String,
    /// What changed, such as `User.email`, `OrderStatus.Refunded` or `UserAPI.GetUser`.
    pub context: String,
}

/// What a violation says: its level, code, message and context.
pub type ViolationView = (Level, Seq<char>, Seq<char>, Seq<char>);

impl View for Violation {
    type V = ViolationView;

    open spec fn view(&self) -> ViolationView {
        (self.level, self.code@, self.message@, self.context@)
    }
}

/// What a list of violations says.
pub open spec fn views(vs: Seq<Violation>) -> Seq<ViolationView> {
    vs.map_values(|v: Violation| v@)
}

/// `f(0) + f(1) + ... + f(n - 1)`.
pub open spec fn gather(n: int, f: spec_fn(int) -> Seq<ViolationView>) -> Seq<ViolationView>
    decreases n,
{
    if n <= 0 {
        Seq::empty()
    } else {
        gather(n - 1, f) + f(n - 1)
    }
}

// ── Keys ───────────────────────────────────────────────────────────────

/// Whether some element of `s` has key `k`.
pub open spec fn has_key<A, K>(s: Seq<A>, key: spec_fn(A) -> K, k: K) -> bool {
    exists|j: int| 0 <= j < s.len() && key(s[j]) == k
}

/// The index of the last element of `s` with key `k` (-1 if none): the one
/// that a map built from `s` keeps for `k`.
pub open spec fn last_with<A, K>(s: Seq<A>, key: spec_fn(A) -> K, k: K) -> int
    decreases s.len(),
{
    if s.len() == 0 {
        -1
    } else if key(s.last()) == k {
        s.len() - 1
    } else {
        last_with(s.drop_last(), key, k)
    }
}

/// Element `i` of `s` is the one that a map built from `s` keeps for its key.
pub open spec fn kept_at<A, K>(s: Seq<A>, key: spec_fn(A) -> K, i: int) -> bool {
    0 <= i < s.len() && last_with(s, key, key(s[i])) == i
}

pub proof fn lemma_last_with<A, K>(s: Seq<A>, key: spec_fn(A) -> K, k: K, i: int)
    requires
        0 <= i < s.len(),
        key(s[i]) == k,
        forall|j: int| i < j < s.len() ==> key(s[j]) != k,
    ensures
        last_with(s, key, k) == i,
        has_key(s, key, k),
    decreases s.len(),
{
    if i < s.len() - 1 {
        lemma_last_with(s.drop_last(), key, k, i);
    }
}

pub proof fn lemma_no_key<A, K>(s: Seq<A>, key: spec_fn(A) -> K, k: K)
    requires
        forall|j: int| 0 <= j < s.len() ==> key(s[j]) != k,
    ensures
        !has_key(s, key, k),
        last_with(s, key, k) == -1,
    decreases s.len(),
{
    if s.len() > 0 {
        lemma_no_key(s.drop_last(), key, k);
    }
}

pub open spec fn type_key() -> spec_fn(Type) -> Seq<char> {
    |t: Type| t.full_name@
}

pub open spec fn field_num() -> spec_fn(Field) -> u32 {
    |f: Field| f.number
}

pub open spec fn field_name() -> spec_fn(Field) -> Seq<char> {
    |f: Field| f.name@
}

pub open spec fn oneof_key() -> spec_fn(OneofGroup) -> Seq<char> {
    |o: OneofGroup| o.name@
}

pub open spec fn oneof_field_num() -> spec_fn(OneofField) -> u32 {
    |f: OneofField| f.number
}

pub open spec fn enum_key() -> spec_fn(Enum) -> Seq<char> {
    |e: Enum| e.full_name@
}

pub open spec fn value_num() -> spec_fn(EnumValue) -> i32 {
    |v: EnumValue| v.number
}

pub open spec fn service_key() -> spec_fn(Service) -> Seq<char> {
    |s: Service| s.full_name@
}

pub open spec fn rpc_key() -> spec_fn(Rpc) -> Seq<char> {
    |r: Rpc| r.name@
}

// ── Text ───────────────────────────────────────────────────────────────

/// The decimal digits of `n`.
pub open spec fn nat_text(n: nat) -> Seq<char>
    decreases n,
{
    if n < 10 {
        seq![(48 + n) as char]
    } else {
        nat_text(n / 10) + seq![(48 + n % 10) as char]
    }
}

/// `n` in decimal, with a minus sign if negative.
pub open spec fn int_text(n: int) -> Seq<char> {
    if n < 0 {
        seq!['-'] + nat_text((-n) as nat)
    } else {
        nat_text(n as nat)
    }
}

/// `true` or `false`.
pub open spec fn bool_text(b: bool) -> Seq<char> {
    if b {
        "true"@
    } else {
        "false"@
    }
}

/// `a.b`.
pub open spec fn dotted(a: Seq<char>, b: Seq<char>) -> Seq<char> {
    a + "."@ + b
}

/// ` (= n)`.
pub open spec fn number_note(n: int) -> Seq<char> {
    " (= "@ + int_text(n) + ")"@
}

/// `Display` of an integer: its decimal text.
#[verifier::external_body]
fn int_string(n: i64) -> (s: String)
    ensures
        s@ == int_text(n as int),
{
    n.to_string()
}

fn bool_string(b: bool) -> (s: String)
    ensures
        s@ == bool_text(b),
{
    if b {
        "true".to_owned()
    } else {
        "false".to_owned()
    }
}

/// `a.b`
fn dotted_string(a: &str, b: &str) -> (s: String)
    ensures
        s@ == dotted(a@, b@),
{
    let mut s = a.to_owned();
    s.append(".");
    s.append(b);
    s
}

/// ` (= n)`
fn number_note_string(n: i64) -> (s: String)
    ensures
        s@ == number_note(n as int),
{
    let mut s = " (= ".to_owned();
    let d = int_string(n);
    s.append(d.as_str());
    s.append(")");
    s
}

/// Append a violation.
fn emit(out: &mut Vec<Violation>, v: Violation)
    ensures
        views(final(out)@) == views(old(out)@).push(v@),
{
    let ghost v_view = v@;
    out.push(v);
    proof {
        assert(views(out@) =~= views(old(out)@).push(v_view));
    }
}

// ── Wire types ─────────────────────────────────────────────────────────

/// The wire type of a type reference, as compared across versions.
pub open spec fn wire_ref(t: TypeReference) -> Seq<char>
    decreases t,
{
    match t.kind {
        None => "none"@,
        Some(TypeRefKind::Scalar(s)) => "scalar("@ + int_text(s.scalar_kind as int) + ")"@,
        Some(TypeRefKind::MessageType(m)) => "message("@ + m.full_name@ + ")"@,
        Some(TypeRefKind::EnumType(e)) => "enum("@ + e.full_name@ + ")"@,
        Some(TypeRefKind::MapType(m)) => "map("@ + match m.key {
            Some(k) => wire_ref(*k),
            None => "none"@,
        } + ","@ + match m.value {
            Some(v) => wire_ref(*v),
            None => "none"@,
        } + ")"@,
    }
}

/// The wire type of an optional type reference.
pub open spec fn wire_text(tr: Option<TypeReference>) -> Seq<char> {
    match tr {
        Some(t) => wire_ref(t),
        None => "none"@,
    }
}

/// The signature of an rpc's input or output, as compared across versions.
pub open spec fn param_sig(p: Option<RpcParam>) -> Seq<char> {
    match p {
        None => "none"@,
        Some(x) => if x.is_void {
            "void"@
        } else if x.is_stream {
            "stream "@ + wire_text(x.type_ref)
        } else {
            wire_text(x.type_ref)
        },
    }
}

/// Whether an rpc's input or output streams.
pub open spec fn streams(p: Option<RpcParam>) -> bool {
    p matches Some(x) && x.is_stream
}

fn wire_ref_string(t: &TypeReference) -> (s: String)
    ensures
        s@ == wire_ref(*t),
    decreases t,
{
    match &t.kind {
        None => "none".to_owned(),
        Some(TypeRefKind::Scalar(sc)) => {
            let mut s = "scalar(".to_owned();
            let d = int_string(sc.scalar_kind as i64);
            s.append(d.as_str());
            s.append(")");
            s
        },
        Some(TypeRefKind::MessageType(m)) => {
            let mut s = "message(".to_owned();
            s.append(m.full_name.as_str());
            s.append(")");
            s
        },
        Some(TypeRefKind::EnumType(e)) => {
            let mut s = "enum(".to_owned();
            s.append(e.full_name.as_str());
            s.append(")");
            s
        },
        Some(TypeRefKind::MapType(m)) => {
            let k = match &m.key {
                Some(k) => wire_ref_string(k),
                None => "none".to_owned(),
            };
            let v = match &m.value {
                Some(v) => wire_ref_string(v),
                None => "none".to_owned(),
            };
            let mut s = "map(".to_owned();
            s.append(k.as_str());
            s.append(",");
            s.append(v.as_str());
            s.append(")");
            s
        },
    }
}

/// Simplified wire type text, for comparison.
fn wire_type_of(tr: Option<&TypeReference>) -> (s: String)
    ensures
        s@ == match tr {
            Some(t) => wire_ref(*t),
            None => "none"@,
        },
{
    match tr {
        Some(t) => wire_ref_string(t),
        None => "none".to_owned(),
    }
}

fn rpc_param_sig(param: Option<&RpcParam>) -> (s: String)
    ensures
        s@ == match param {
            Some(p) => param_sig(Some(*p)),
            None => param_sig(None),
        },
{
    match param {
        None => "none".to_owned(),
        Some(p) => {
            if p.is_void {
                "void".to_owned()
            } else {
                let w = wire_type_of(p.type_ref.as_ref());
                if p.is_stream {
                    let mut s = "stream ".to_owned();
                    s.append(w.as_str());
                    s
                } else {
                    w
                }
            }
        },
    }
}

/// The index of the last element of `xs` whose key is `k`, if any.
fn last_type_named(xs: &Vec<Type>, k: &String) -> (r: Option<usize>)
    ensures
        r is Some <==> has_key(xs@, type_key(), k@),
        r matches Some(i) ==> i < xs.len() && i == last_with(xs@, type_key(), k@),
{
    let mut i = xs.len();
    while i > 0
        invariant
            i <= xs.len(),
            forall|j: int| i <= j < xs.len() ==> type_key()(xs@[j]) != k@,
        decreases i,
    {
        i -= 1;
        if xs[i].full_name == *k {
            proof {
                lemma_last_with(xs@, type_key(), k@, i as int);
            }
            return Some(i);
        }
    }
    proof {
        lemma_no_key(xs@, type_key(), k@);
    }
    None
}

/// The index of the last element of `xs` whose key is `k`, if any.
fn last_field_numbered(xs: &Vec<Field>, k: u32) -> (r: Option<usize>)
    ensures
        r is Some <==> has_key(xs@, field_num(), k),
        r matches Some(i) ==> i < xs.len() && i == last_with(xs@, field_num(), k),
{
    let mut i = xs.len();
    while i > 0
        invariant
            i <= xs.len(),
            forall|j: int| i <= j < xs.len() ==> field_num()(xs@[j]) != k,
        decreases i,
    {
        i -= 1;
        if xs[i].number == k {
            proof {
                lemma_last_with(xs@, field_num(), k, i as int);
            }
            return Some(i);
        }
    }
    proof {
        lemma_no_key(xs@, field_num(), k);
    }
    None
}

/// The index of the last element of `xs` whose key is `k`, if any.
fn last_field_named(xs: &Vec<Field>, k: &String) -> (r: Option<usize>)
    ensures
        r is Some <==> has_key(xs@, field_name(), k@),
        r matches Some(i) ==> i < xs.len() && i == last_with(xs@, field_name(), k@),
{
    let mut i = xs.len();
    while i > 0
        invariant
            i <= xs.len(),
            forall|j: int| i <= j < xs.len() ==> field_name()(xs@[j]) != k@,
        decreases i,
    {
        i -= 1;
        if xs[i].name == *k {
            proof {
                lemma_last_with(xs@, field_name(), k@, i as int);
            }
            return Some(i);
        }
    }
    proof {
        lemma_no_key(xs@, field_name(), k@);
    }
    None
}

/// The index of the last element of `xs` whose key is `k`, if any.
fn last_oneof_named(xs: &Vec<OneofGroup>, k: &String) -> (r: Option<usize>)
    ensures
        r is Some <==> has_key(xs@, oneof_key(), k@),
        r matches Some(i) ==> i < xs.len() && i == last_with(xs@, oneof_key(), k@),
{
    let mut i = xs.len();
    while i > 0
        invariant
            i <= xs.len(),
            forall|j: int| i <= j < xs.len() ==> oneof_key()(xs@[j]) != k@,
        decreases i,
    {
        i -= 1;
        if xs[i].name == *k {
            proof {
                lemma_last_with(xs@, oneof_key(), k@, i as int);
            }
            return Some(i);
        }
    }
    proof {
        lemma_no_key(xs@, oneof_key(), k@);
    }
    None
}

/// The index of the last element of `xs` whose key is `k`, if any.
fn last_oneof_field_numbered(xs: &Vec<OneofField>, k: u32) -> (r: Option<usize>)
    ensures
        r is Some <==> has_key(xs@, oneof_field_num(), k),
        r matches Some(i) ==> i < xs.len() && i == last_with(xs@, oneof_field_num(), k),
{
    let mut i = xs.len();
    while i > 0
        invariant
            i <= xs.len(),
            forall|j: int| i <= j < xs.len() ==> oneof_field_num()(xs@[j]) != k,
        decreases i,
    {
        i -= 1;
        if xs[i].number == k {
            proof {
                lemma_last_with(xs@, oneof_field_num(), k, i as int);
            }
            return Some(i);
        }
    }
    proof {
        lemma_no_key(xs@, oneof_field_num(), k);
    }
    None
}

/// The index of the last element of `xs` whose key is `k`, if any.
fn last_enum_named(xs: &Vec<Enum>, k: &String) -> (r: Option<usize>)
    ensures
        r is Some <==> has_key(xs@, enum_key(), k@),
        r matches Some(i) ==> i < xs.len() && i == last_with(xs@, enum_key(), k@),
{
    let mut i = xs.len();
    while i > 0
        invariant
            i <= xs.len(),
            forall|j: int| i <= j < xs.len() ==> enum_key()(xs@[j]) != k@,
        decreases i,
    {
        i -= 1;
        if xs[i].full_name == *k {
            proof {
                lemma_last_with(xs@, enum_key(), k@, i as int);
            }
            return Some(i);
        }
    }
    proof {
        lemma_no_key(xs@, enum_key(), k@);
    }
    None
}

/// The index of the last element of `xs` whose key is `k`, if any.
fn last_value_numbered(xs: &Vec<EnumValue>, k: i32) -> (r: Option<usize>)
    ensures
        r is Some <==> has_key(xs@, value_num(), k),
        r matches Some(i) ==> i < xs.len() && i == last_with(xs@, value_num(), k),
{
    let mut i = xs.len();
    while i > 0
        invariant
            i <= xs.len(),
            forall|j: int| i <= j < xs.len() ==> value_num()(xs@[j]) != k,
        decreases i,
    {
        i -= 1;
        if xs[i].number == k {
            proof {
                lemma_last_with(xs@, value_num(), k, i as int);
            }
            return Some(i);
        }
    }
    proof {
        lemma_no_key(xs@, value_num(), k);
    }
    None
}

/// The index of the last element of `xs` whose key is `k`, if any.
fn last_service_named(xs: &Vec<Service>, k: &String) -> (r: Option<usize>)
    ensures
        r is Some <==> has_key(xs@, service_key(), k@),
        r matches Some(i) ==> i < xs.len() && i == last_with(xs@, service_key(), k@),
{
    let mut i = xs.len();
    while i > 0
        invariant
            i <= xs.len(),
            forall|j: int| i <= j < xs.len() ==> service_key()(xs@[j]) != k@,
        decreases i,
    {
        i -= 1;
        if xs[i].full_name == *k {
            proof {
                lemma_last_with(xs@, service_key(), k@, i as int);
            }
            return Some(i);
        }
    }
    proof {
        lemma_no_key(xs@, service_key(), k@);
    }
    None
}

/// The index of the last element of `xs` whose key is `k`, if any.
fn last_rpc_named(xs: &Vec<Rpc>, k: &String) -> (r: Option<usize>)
    ensures
        r is Some <==> has_key(xs@, rpc_key(), k@),
        r matches Some(i) ==> i < xs.len() && i == last_with(xs@, rpc_key(), k@),
{
    let mut i = xs.len();
    while i > 0
        invariant
            i <= xs.len(),
            forall|j: int| i <= j < xs.len() ==> rpc_key()(xs@[j]) != k@,
        decreases i,
    {
        i -= 1;
        if xs[i].name == *k {
            proof {
                lemma_last_with(xs@, rpc_key(), k@, i as int);
            }
            return Some(i);
        }
    }
    proof {
        lemma_no_key(xs@, rpc_key(), k@);
    }
    None
}

// ── What is reported ───────────────────────────────────────────────────

pub open spec fn removed_type_at(o: Seq<Type>, w: Seq<Type>, i: int) -> Seq<ViolationView> {
    if kept_at(o, type_key(), i) && !has_key(w, type_key(), o[i].full_name@) {
        seq![(Level::Error, "B001"@, "type removed: "@ + o[i].full_name@, o[i].full_name@)]
    } else {
        Seq::empty()
    }
}

pub open spec fn added_type_at(o: Seq<Type>, w: Seq<Type>, i: int) -> Seq<ViolationView> {
    if kept_at(w, type_key(), i) && !has_key(o, type_key(), w[i].full_name@) {
        seq![(Level::Info, "B002"@, "type added: "@ + w[i].full_name@, w[i].full_name@)]
    } else {
        Seq::empty()
    }
}

pub open spec fn changed_type_at(o: Seq<Type>, w: Seq<Type>, i: int) -> Seq<ViolationView> {
    if kept_at(o, type_key(), i) && has_key(w, type_key(), o[i].full_name@) {
        let u = w[last_with(w, type_key(), o[i].full_name@)];
        field_changes(o[i].full_name@, o[i].fields@, u.fields@) + oneof_changes(
            o[i].full_name@,
            o[i].oneofs@,
            u.oneofs@,
        )
    } else {
        Seq::empty()
    }
}

pub open spec fn removed_types(o: Seq<Type>, w: Seq<Type>) -> Seq<ViolationView> {
    gather(o.len() as int, |k: int| removed_type_at(o, w, k))
}

pub open spec fn added_types(o: Seq<Type>, w: Seq<Type>) -> Seq<ViolationView> {
    gather(w.len() as int, |k: int| added_type_at(o, w, k))
}

pub open spec fn changed_types(o: Seq<Type>, w: Seq<Type>) -> Seq<ViolationView> {
    gather(o.len() as int, |k: int| changed_type_at(o, w, k))
}

/// Type changes: removed types, then added types, then the changes within
/// each type that both versions have.
pub open spec fn type_changes(o: Seq<Type>, w: Seq<Type>) -> Seq<ViolationView> {
    removed_types(o, w) + added_types(o, w) + changed_types(o, w)
}

pub open spec fn removed_field_at(tn: Seq<char>, of: Seq<Field>, nf: Seq<Field>, i: int) -> Seq<ViolationView> {
    if kept_at(of, field_num(), i) && !has_key(nf, field_num(), of[i].number) {
        seq![
            (
                Level::Error,
                "B010"@,
                "field removed: "@ + dotted(tn, of[i].name@) + number_note(of[i].number as int),
                dotted(tn, of[i].name@),
            ),
        ]
    } else {
        Seq::empty()
    }
}

pub open spec fn added_field_at(tn: Seq<char>, of: Seq<Field>, nf: Seq<Field>, i: int) -> Seq<ViolationView> {
    if kept_at(nf, field_num(), i) && !has_key(of, field_num(), nf[i].number) {
        seq![
            (
                Level::Info,
                "B011"@,
                "field added: "@ + dotted(tn, nf[i].name@) + number_note(nf[i].number as int),
                dotted(tn, nf[i].name@),
            ),
        ]
    } else {
        Seq::empty()
    }
}

/// The changes between two versions of the field with one number.
pub open spec fn same_number_changes(tn: Seq<char>, a: Field, b: Field) -> Seq<ViolationView> {
    let ctx = dotted(tn, b.name@);
    let note = number_note(a.number as int);
    (if a.name@ != b.name@ {
        seq![
            (
                Level::Warning,
                "B012"@,
                "field renamed: "@ + dotted(tn, a.name@) + " → "@ + b.name@ + note,
                ctx,
            ),
        ]
    } else {
        Seq::empty()
    }) + (if wire_text(a.type_ref) != wire_text(b.type_ref) {
        seq![
            (
                Level::Error,
                "B013"@,
                "field type changed: "@ + ctx + note + ": "@ + wire_text(a.type_ref) + " → "@
                    + wire_text(b.type_ref),
                ctx,
            ),
        ]
    } else {
        Seq::empty()
    }) + (if a.is_repeated != b.is_repeated {
        seq![
            (
                Level::Error,
                "B014"@,
                "field repeated changed: "@ + ctx + note + ": "@ + bool_text(a.is_repeated) + " → "@
                    + bool_text(b.is_repeated),
                ctx,
            ),
        ]
    } else {
        Seq::empty()
    }) + (if a.is_optional != b.is_optional {
        seq![
            (
                Level::Warning,
                "B015"@,
                "field optionality changed: "@ + ctx + note + ": optional="@ + bool_text(
                    a.is_optional,
                ) + " → optional="@ + bool_text(b.is_optional),
                ctx,
            ),
        ]
    } else {
        Seq::empty()
    })
}

pub open spec fn kept_number_at(tn: Seq<char>, of: Seq<Field>, nf: Seq<Field>, i: int) -> Seq<ViolationView> {
    if kept_at(of, field_num(), i) && has_key(nf, field_num(), of[i].number) {
        same_number_changes(tn, of[i], nf[last_with(nf, field_num(), of[i].number)])
    } else {
        Seq::empty()
    }
}

pub open spec fn renumbered_at(tn: Seq<char>, of: Seq<Field>, nf: Seq<Field>, i: int) -> Seq<ViolationView> {
    if kept_at(of, field_name(), i) && has_key(nf, field_name(), of[i].name@) {
        let b = nf[last_with(nf, field_name(), of[i].name@)];
        if of[i].number != b.number {
            seq![
                (
                    Level::Error,
                    "B016"@,
                    "field number changed: "@ + dotted(tn, of[i].name@) + ": "@ + int_text(
                        of[i].number as int,
                    ) + " → "@ + int_text(b.number as int),
                    dotted(tn, of[i].name@),
                ),
            ]
        } else {
            Seq::empty()
        }
    } else {
        Seq::empty()
    }
}

pub open spec fn removed_fields(tn: Seq<char>, of: Seq<Field>, nf: Seq<Field>) -> Seq<ViolationView> {
    gather(of.len() as int, |k: int| removed_field_at(tn, of, nf, k))
}

pub open spec fn added_fields(tn: Seq<char>, of: Seq<Field>, nf: Seq<Field>) -> Seq<ViolationView> {
    gather(nf.len() as int, |k: int| added_field_at(tn, of, nf, k))
}

pub open spec fn kept_numbers(tn: Seq<char>, of: Seq<Field>, nf: Seq<Field>) -> Seq<ViolationView> {
    gather(of.len() as int, |k: int| kept_number_at(tn, of, nf, k))
}

pub open spec fn renumbered(tn: Seq<char>, of: Seq<Field>, nf: Seq<Field>) -> Seq<ViolationView> {
    gather(of.len() as int, |k: int| renumbered_at(tn, of, nf, k))
}

/// Field changes of type `tn`: by number, fields removed, then added, then
/// changed; then, by name, fields whose number changed.
pub open spec fn field_changes(tn: Seq<char>, of: Seq<Field>, nf: Seq<Field>) -> Seq<ViolationView> {
    removed_fields(tn, of, nf) + added_fields(tn, of, nf) + kept_numbers(tn, of, nf) + renumbered(
        tn,
        of,
        nf,
    )
}

pub open spec fn removed_oneof_at(tn: Seq<char>, oo: Seq<OneofGroup>, no: Seq<OneofGroup>, i: int) -> Seq<ViolationView> {
    if kept_at(oo, oneof_key(), i) && !has_key(no, oneof_key(), oo[i].name@) {
        seq![
            (
                Level::Error,
                "B020"@,
                "oneof removed: "@ + dotted(tn, oo[i].name@),
                dotted(tn, oo[i].name@),
            ),
        ]
    } else {
        Seq::empty()
    }
}

pub open spec fn removed_oneof_field_at(on: Seq<char>, of: Seq<OneofField>, nf: Seq<OneofField>, k: int) -> Seq<ViolationView> {
    if kept_at(of, oneof_field_num(), k) && !has_key(nf, oneof_field_num(), of[k].number) {
        seq![
            (
                Level::Error,
                "B021"@,
                "oneof field removed: "@ + dotted(on, of[k].name@) + number_note(of[k].number as int),
                dotted(on, of[k].name@),
            ),
        ]
    } else {
        Seq::empty()
    }
}

pub open spec fn removed_oneof_fields(on: Seq<char>, of: Seq<OneofField>, nf: Seq<OneofField>) -> Seq<ViolationView> {
    gather(of.len() as int, |k: int| removed_oneof_field_at(on, of, nf, k))
}

pub open spec fn oneof_fields_at(tn: Seq<char>, oo: Seq<OneofGroup>, no: Seq<OneofGroup>, i: int) -> Seq<ViolationView> {
    if kept_at(oo, oneof_key(), i) && has_key(no, oneof_key(), oo[i].name@) {
        removed_oneof_fields(
            dotted(tn, oo[i].name@),
            oo[i].fields@,
            no[last_with(no, oneof_key(), oo[i].name@)].fields@,
        )
    } else {
        Seq::empty()
    }
}

pub open spec fn removed_oneofs(tn: Seq<char>, oo: Seq<OneofGroup>, no: Seq<OneofGroup>) -> Seq<ViolationView> {
    gather(oo.len() as int, |k: int| removed_oneof_at(tn, oo, no, k))
}

pub open spec fn oneof_field_removals(tn: Seq<char>, oo: Seq<OneofGroup>, no: Seq<OneofGroup>) -> Seq<ViolationView> {
    gather(oo.len() as int, |k: int| oneof_fields_at(tn, oo, no, k))
}

/// Oneof changes of type `tn`: oneofs removed, then fields removed from the
/// oneofs that both versions have.
pub open spec fn oneof_changes(tn: Seq<char>, oo: Seq<OneofGroup>, no: Seq<OneofGroup>) -> Seq<ViolationView> {
    removed_oneofs(tn, oo, no) + oneof_field_removals(tn, oo, no)
}

pub open spec fn removed_enum_at(o: Seq<Enum>, w: Seq<Enum>, i: int) -> Seq<ViolationView> {
    if kept_at(o, enum_key(), i) && !has_key(w, enum_key(), o[i].full_name@) {
        seq![(Level::Error, "B030"@, "enum removed: "@ + o[i].full_name@, o[i].full_name@)]
    } else {
        Seq::empty()
    }
}

pub open spec fn added_enum_at(o: Seq<Enum>, w: Seq<Enum>, i: int) -> Seq<ViolationView> {
    if kept_at(w, enum_key(), i) && !has_key(o, enum_key(), w[i].full_name@) {
        seq![(Level::Info, "B031"@, "enum added: "@ + w[i].full_name@, w[i].full_name@)]
    } else {
        Seq::empty()
    }
}

pub open spec fn removed_value_at(en: Seq<char>, av: Seq<EnumValue>, bv: Seq<EnumValue>, k: int) -> Seq<ViolationView> {
    if kept_at(av, value_num(), k) && !has_key(bv, value_num(), av[k].number) {
        seq![
            (
                Level::Error,
                "B032"@,
                "enum value removed: "@ + dotted(en, av[k].name@) + number_note(av[k].number as int),
                dotted(en, av[k].name@),
            ),
        ]
    } else {
        Seq::empty()
    }
}

pub open spec fn added_value_at(en: Seq<char>, av: Seq<EnumValue>, bv: Seq<EnumValue>, k: int) -> Seq<ViolationView> {
    if kept_at(bv, value_num(), k) && !has_key(av, value_num(), bv[k].number) {
        seq![
            (
                Level::Info,
                "B033"@,
                "enum value added: "@ + dotted(en, bv[k].name@) + number_note(bv[k].number as int),
                dotted(en, bv[k].name@),
            ),
        ]
    } else {
        Seq::empty()
    }
}

pub open spec fn renamed_value_at(en: Seq<char>, av: Seq<EnumValue>, bv: Seq<EnumValue>, k: int) -> Seq<ViolationView> {
    if kept_at(av, value_num(), k) && has_key(bv, value_num(), av[k].number) {
        let y = bv[last_with(bv, value_num(), av[k].number)];
        if av[k].name@ != y.name@ {
            seq![
                (
                    Level::Warning,
                    "B034"@,
                    "enum value renamed: "@ + en + ": "@ + av[k].name@ + " → "@ + y.name@
                        + number_note(av[k].number as int),
                    dotted(en, y.name@),
                ),
            ]
        } else {
            Seq::empty()
        }
    } else {
        Seq::empty()
    }
}

pub open spec fn removed_values(en: Seq<char>, av: Seq<EnumValue>, bv: Seq<EnumValue>) -> Seq<ViolationView> {
    gather(av.len() as int, |k: int| removed_value_at(en, av, bv, k))
}

pub open spec fn added_values(en: Seq<char>, av: Seq<EnumValue>, bv: Seq<EnumValue>) -> Seq<ViolationView> {
    gather(bv.len() as int, |k: int| added_value_at(en, av, bv, k))
}

pub open spec fn renamed_values(en: Seq<char>, av: Seq<EnumValue>, bv: Seq<EnumValue>) -> Seq<ViolationView> {
    gather(av.len() as int, |k: int| renamed_value_at(en, av, bv, k))
}

/// Value changes of enum `en`: values removed, then added, then renamed.
pub open spec fn value_changes(en: Seq<char>, av: Seq<EnumValue>, bv: Seq<EnumValue>) -> Seq<ViolationView> {
    removed_values(en, av, bv) + added_values(en, av, bv) + renamed_values(en, av, bv)
}

pub open spec fn changed_enum_at(o: Seq<Enum>, w: Seq<Enum>, i: int) -> Seq<ViolationView> {
    if kept_at(o, enum_key(), i) && has_key(w, enum_key(), o[i].full_name@) {
        value_changes(
            o[i].full_name@,
            o[i].values@,
            w[last_with(w, enum_key(), o[i].full_name@)].values@,
        )
    } else {
        Seq::empty()
    }
}

pub open spec fn removed_enums(o: Seq<Enum>, w: Seq<Enum>) -> Seq<ViolationView> {
    gather(o.len() as int, |k: int| removed_enum_at(o, w, k))
}

pub open spec fn added_enums(o: Seq<Enum>, w: Seq<Enum>) -> Seq<ViolationView> {
    gather(w.len() as int, |k: int| added_enum_at(o, w, k))
}

pub open spec fn changed_enums(o: Seq<Enum>, w: Seq<Enum>) -> Seq<ViolationView> {
    gather(o.len() as int, |k: int| changed_enum_at(o, w, k))
}

/// Enum changes: removed enums, then added enums, then value changes.
pub open spec fn enum_changes(o: Seq<Enum>, w: Seq<Enum>) -> Seq<ViolationView> {
    removed_enums(o, w) + added_enums(o, w) + changed_enums(o, w)
}

pub open spec fn removed_service_at(o: Seq<Service>, w: Seq<Service>, i: int) -> Seq<ViolationView> {
    if kept_at(o, service_key(), i) && !has_key(w, service_key(), o[i].full_name@) {
        seq![(Level::Error, "B040"@, "service removed: "@ + o[i].full_name@, o[i].full_name@)]
    } else {
        Seq::empty()
    }
}

pub open spec fn removed_rpc_at(sn: Seq<char>, ar: Seq<Rpc>, br: Seq<Rpc>, k: int) -> Seq<ViolationView> {
    if kept_at(ar, rpc_key(), k) && !has_key(br, rpc_key(), ar[k].name@) {
        seq![
            (
                Level::Warning,
                "B041"@,
                "rpc removed: "@ + dotted(sn, ar[k].name@),
                dotted(sn, ar[k].name@),
            ),
        ]
    } else {
        Seq::empty()
    }
}

pub open spec fn added_rpc_at(sn: Seq<char>, ar: Seq<Rpc>, br: Seq<Rpc>, k: int) -> Seq<ViolationView> {
    if kept_at(br, rpc_key(), k) && !has_key(ar, rpc_key(), br[k].name@) {
        seq![(Level::Info, "B042"@, "rpc added: "@ + dotted(sn, br[k].name@), dotted(sn, br[k].name@))]
    } else {
        Seq::empty()
    }
}

/// The changes between two versions of one rpc, `ctx` naming it.
pub open spec fn rpc_diffs(ctx: Seq<char>, x: Rpc, y: Rpc) -> Seq<ViolationView> {
    (if param_sig(x.input) != param_sig(y.input) {
        seq![
            (
                Level::Error,
                "B043"@,
                "rpc input changed: "@ + ctx + ": "@ + param_sig(x.input) + " → "@ + param_sig(
                    y.input,
                ),
                ctx,
            ),
        ]
    } else {
        Seq::empty()
    }) + (if param_sig(x.output) != param_sig(y.output) {
        seq![
            (
                Level::Error,
                "B044"@,
                "rpc output changed: "@ + ctx + ": "@ + param_sig(x.output) + " → "@ + param_sig(
                    y.output,
                ),
                ctx,
            ),
        ]
    } else {
        Seq::empty()
    }) + (if streams(x.input) != streams(y.input) || streams(x.output) != streams(y.output) {
        seq![(Level::Error, "B045"@, "rpc streaming changed: "@ + ctx, ctx)]
    } else {
        Seq::empty()
    })
}

pub open spec fn changed_rpc_at(sn: Seq<char>, ar: Seq<Rpc>, br: Seq<Rpc>, k: int) -> Seq<ViolationView> {
    if kept_at(ar, rpc_key(), k) && has_key(br, rpc_key(), ar[k].name@) {
        rpc_diffs(dotted(sn, ar[k].name@), ar[k], br[last_with(br, rpc_key(), ar[k].name@)])
    } else {
        Seq::empty()
    }
}

pub open spec fn removed_rpcs(sn: Seq<char>, ar: Seq<Rpc>, br: Seq<Rpc>) -> Seq<ViolationView> {
    gather(ar.len() as int, |k: int| removed_rpc_at(sn, ar, br, k))
}

pub open spec fn added_rpcs(sn: Seq<char>, ar: Seq<Rpc>, br: Seq<Rpc>) -> Seq<ViolationView> {
    gather(br.len() as int, |k: int| added_rpc_at(sn, ar, br, k))
}

pub open spec fn changed_rpcs(sn: Seq<char>, ar: Seq<Rpc>, br: Seq<Rpc>) -> Seq<ViolationView> {
    gather(ar.len() as int, |k: int| changed_rpc_at(sn, ar, br, k))
}

/// Rpc changes of service `sn`: rpcs removed, then added, then changed.
pub open spec fn rpc_changes(sn: Seq<char>, ar: Seq<Rpc>, br: Seq<Rpc>) -> Seq<ViolationView> {
    removed_rpcs(sn, ar, br) + added_rpcs(sn, ar, br) + changed_rpcs(sn, ar, br)
}

pub open spec fn changed_service_at(o: Seq<Service>, w: Seq<Service>, i: int) -> Seq<ViolationView> {
    if kept_at(o, service_key(), i) && has_key(w, service_key(), o[i].full_name@) {
        rpc_changes(
            o[i].full_name@,
            o[i].rpcs@,
            w[last_with(w, service_key(), o[i].full_name@)].rpcs@,
        )
    } else {
        Seq::empty()
    }
}

pub open spec fn removed_services(o: Seq<Service>, w: Seq<Service>) -> Seq<ViolationView> {
    gather(o.len() as int, |k: int| removed_service_at(o, w, k))
}

pub open spec fn changed_services(o: Seq<Service>, w: Seq<Service>) -> Seq<ViolationView> {
    gather(o.len() as int, |k: int| changed_service_at(o, w, k))
}

/// Service changes: removed services, then rpc changes of the services
/// that both versions have.
pub open spec fn service_changes(o: Seq<Service>, w: Seq<Service>) -> Seq<ViolationView> {
    removed_services(o, w) + changed_services(o, w)
}

/// Everything that changed from `old` to `new`: types, then enums, then services.
pub open spec fn changes(old: Module, new: Module) -> Seq<ViolationView> {
    type_changes(old.types@, new.types@) + enum_changes(old.enums@, new.enums@) + service_changes(
        old.services@,
        new.services@,
    )
}

/// Whether element `i` is the one kept for its key.
fn kept_type(xs: &Vec<Type>, i: usize) -> (r: bool)
    requires
        i < xs.len(),
    ensures
        r == kept_at(xs@, type_key(), i as int),
{
    proof {
        assert(type_key()(xs@[i as int]) == xs@[i as int].full_name@);
        assert(has_key(xs@, type_key(), xs@[i as int].full_name@));
    }
    match last_type_named(xs, &xs[i].full_name) {
        Some(j) => j == i,
        None => false,
    }
}

/// Whether element `i` is the one kept for its key.
fn kept_field_number(xs: &Vec<Field>, i: usize) -> (r: bool)
    requires
        i < xs.len(),
    ensures
        r == kept_at(xs@, field_num(), i as int),
{
    proof {
        assert(field_num()(xs@[i as int]) == xs@[i as int].number);
        assert(has_key(xs@, field_num(), xs@[i as int].number));
    }
    match last_field_numbered(xs, xs[i].number) {
        Some(j) => j == i,
        None => false,
    }
}

/// Whether element `i` is the one kept for its key.
fn kept_field_name(xs: &Vec<Field>, i: usize) -> (r: bool)
    requires
        i < xs.len(),
    ensures
        r == kept_at(xs@, field_name(), i as int),
{
    proof {
        assert(field_name()(xs@[i as int]) == xs@[i as int].name@);
        assert(has_key(xs@, field_name(), xs@[i as int].name@));
    }
    match last_field_named(xs, &xs[i].name) {
        Some(j) => j == i,
        None => false,
    }
}

/// Whether element `i` is the one kept for its key.
fn kept_oneof(xs: &Vec<OneofGroup>, i: usize) -> (r: bool)
    requires
        i < xs.len(),
    ensures
        r == kept_at(xs@, oneof_key(), i as int),
{
    proof {
        assert(oneof_key()(xs@[i as int]) == xs@[i as int].name@);
        assert(has_key(xs@, oneof_key(), xs@[i as int].name@));
    }
    match last_oneof_named(xs, &xs[i].name) {
        Some(j) => j == i,
        None => false,
    }
}

/// Whether element `i` is the one kept for its key.
fn kept_oneof_field(xs: &Vec<OneofField>, i: usize) -> (r: bool)
    requires
        i < xs.len(),
    ensures
        r == kept_at(xs@, oneof_field_num(), i as int),
{
    proof {
        assert(oneof_field_num()(xs@[i as int]) == xs@[i as int].number);
        assert(has_key(xs@, oneof_field_num(), xs@[i as int].number));
    }
    match last_oneof_field_numbered(xs, xs[i].number) {
        Some(j) => j == i,
        None => false,
    }
}

/// Whether element `i` is the one kept for its key.
fn kept_enum(xs: &Vec<Enum>, i: usize) -> (r: bool)
    requires
        i < xs.len(),
    ensures
        r == kept_at(xs@, enum_key(), i as int),
{
    proof {
        assert(enum_key()(xs@[i as int]) == xs@[i as int].full_name@);
        assert(has_key(xs@, enum_key(), xs@[i as int].full_name@));
    }
    match last_enum_named(xs, &xs[i].full_name) {
        Some(j) => j == i,
        None => false,
    }
}

/// Whether element `i` is the one kept for its key.
fn kept_value(xs: &Vec<EnumValue>, i: usize) -> (r: bool)
    requires
        i < xs.len(),
    ensures
        r == kept_at(xs@, value_num(), i as int),
{
    proof {
        assert(value_num()(xs@[i as int]) == xs@[i as int].number);
        assert(has_key(xs@, value_num(), xs@[i as int].number));
    }
    match last_value_numbered(xs, xs[i].number) {
        Some(j) => j == i,
        None => false,
    }
}

/// Whether element `i` is the one kept for its key.
fn kept_service(xs: &Vec<Service>, i: usize) -> (r: bool)
    requires
        i < xs.len(),
    ensures
        r == kept_at(xs@, service_key(), i as int),
{
    proof {
        assert(service_key()(xs@[i as int]) == xs@[i as int].full_name@);
        assert(has_key(xs@, service_key(), xs@[i as int].full_name@));
    }
    match last_service_named(xs, &xs[i].full_name) {
        Some(j) => j == i,
        None => false,
    }
}

/// Whether element `i` is the one kept for its key.
fn kept_rpc(xs: &Vec<Rpc>, i: usize) -> (r: bool)
    requires
        i < xs.len(),
    ensures
        r == kept_at(xs@, rpc_key(), i as int),
{
    proof {
        assert(rpc_key()(xs@[i as int]) == xs@[i as int].name@);
        assert(has_key(xs@, rpc_key(), xs@[i as int].name@));
    }
    match last_rpc_named(xs, &xs[i].name) {
        Some(j) => j == i,
        None => false,
    }
}

fn removed_types_loop(o: &Vec<Type>, w: &Vec<Type>, out: &mut Vec<Violation>)
    ensures
        views(final(out)@) == views(old(out)@) + removed_types(o@, w@),
{
    let ghost base = views(out@);
    let mut i: usize = 0;
    while i < o.len()
        invariant
            i <= o.len(),
            views(out@) == base + gather(i as int, |k: int| removed_type_at(o@, w@, k)),
        decreases o.len() - i,
    {
        let ghost before = views(out@);
        removed_type_check(o, w, i, out);
        proof {
            assert(gather(i + 1, |k: int| removed_type_at(o@, w@, k)) == gather(i as int, |k: int| removed_type_at(o@, w@, k)) + removed_type_at(o@, w@, i as int));
            assert(views(out@) =~= base + gather(i + 1, |k: int| removed_type_at(o@, w@, k)));
        }
        i += 1;
    }
}

fn added_types_loop(o: &Vec<Type>, w: &Vec<Type>, out: &mut Vec<Violation>)
    ensures
        views(final(out)@) == views(old(out)@) + added_types(o@, w@),
{
    let ghost base = views(out@);
    let mut i: usize = 0;
    while i < w.len()
        invariant
            i <= w.len(),
            views(out@) == base + gather(i as int, |k: int| added_type_at(o@, w@, k)),
        decreases w.len() - i,
    {
        let ghost before = views(out@);
        added_type_check(o, w, i, out);
        proof {
            assert(gather(i + 1, |k: int| added_type_at(o@, w@, k)) == gather(i as int, |k: int| added_type_at(o@, w@, k)) + added_type_at(o@, w@, i as int));
            assert(views(out@) =~= base + gather(i + 1, |k: int| added_type_at(o@, w@, k)));
        }
        i += 1;
    }
}

fn changed_types_loop(o: &Vec<Type>, w: &Vec<Type>, out: &mut Vec<Violation>)
    ensures
        views(final(out)@) == views(old(out)@) + changed_types(o@, w@),
{
    let ghost base = views(out@);
    let mut i: usize = 0;
    while i < o.len()
        invariant
            i <= o.len(),
            views(out@) == base + gather(i as int, |k: int| changed_type_at(o@, w@, k)),
        decreases o.len() - i,
    {
        let ghost before = views(out@);
        changed_type_check(o, w, i, out);
        proof {
            assert(gather(i + 1, |k: int| changed_type_at(o@, w@, k)) == gather(i as int, |k: int| changed_type_at(o@, w@, k)) + changed_type_at(o@, w@, i as int));
            assert(views(out@) =~= base + gather(i + 1, |k: int| changed_type_at(o@, w@, k)));
        }
        i += 1;
    }
}

fn removed_fields_loop(tn: &str, of: &Vec<Field>, nf: &Vec<Field>, out: &mut Vec<Violation>)
    ensures
        views(final(out)@) == views(old(out)@) + removed_fields(tn@, of@, nf@),
{
    let ghost base = views(out@);
    let mut i: usize = 0;
    while i < of.len()
        invariant
            i <= of.len(),
            views(out@) == base + gather(i as int, |k: int| removed_field_at(tn@, of@, nf@, k)),
        decreases of.len() - i,
    {
        let ghost before = views(out@);
        removed_field_check(tn, of, nf, i, out);
        proof {
            assert(gather(i + 1, |k: int| removed_field_at(tn@, of@, nf@, k)) == gather(i as int, |k: int| removed_field_at(tn@, of@, nf@, k)) + removed_field_at(tn@, of@, nf@, i as int));
            assert(views(out@) =~= base + gather(i + 1, |k: int| removed_field_at(tn@, of@, nf@, k)));
        }
        i += 1;
    }
}

fn added_fields_loop(tn: &str, of: &Vec<Field>, nf: &Vec<Field>, out: &mut Vec<Violation>)
    ensures
        views(final(out)@) == views(old(out)@) + added_fields(tn@, of@, nf@),
{
    let ghost base = views(out@);
    let mut i: usize = 0;
    while i < nf.len()
        invariant
            i <= nf.len(),
            views(out@) == base + gather(i as int, |k: int| added_field_at(tn@, of@, nf@, k)),
        decreases nf.len() - i,
    {
        let ghost before = views(out@);
        added_field_check(tn, of, nf, i, out);
        proof {
            assert(gather(i + 1, |k: int| added_field_at(tn@, of@, nf@, k)) == gather(i as int, |k: int| added_field_at(tn@, of@, nf@, k)) + added_field_at(tn@, of@, nf@, i as int));
            assert(views(out@) =~= base + gather(i + 1, |k: int| added_field_at(tn@, of@, nf@, k)));
        }
        i += 1;
    }
}

fn kept_numbers_loop(tn: &str, of: &Vec<Field>, nf: &Vec<Field>, out: &mut Vec<Violation>)
    ensures
        views(final(out)@) == views(old(out)@) + kept_numbers(tn@, of@, nf@),
{
    let ghost base = views(out@);
    let mut i: usize = 0;
    while i < of.len()
        invariant
            i <= of.len(),
            views(out@) == base + gather(i as int, |k: int| kept_number_at(tn@, of@, nf@, k)),
        decreases of.len() - i,
    {
        let ghost before = views(out@);
        kept_number_check(tn, of, nf, i, out);
        proof {
            assert(gather(i + 1, |k: int| kept_number_at(tn@, of@, nf@, k)) == gather(i as int, |k: int| kept_number_at(tn@, of@, nf@, k)) + kept_number_at(tn@, of@, nf@, i as int));
            assert(views(out@) =~= base + gather(i + 1, |k: int| kept_number_at(tn@, of@, nf@, k)));
        }
        i += 1;
    }
}

fn renumbered_loop(tn: &str, of: &Vec<Field>, nf: &Vec<Field>, out: &mut Vec<Violation>)
    ensures
        views(final(out)@) == views(old(out)@) + renumbered(tn@, of@, nf@),
{
    let ghost base = views(out@);
    let mut i: usize = 0;
    while i < of.len()
        invariant
            i <= of.len(),
            views(out@) == base + gather(i as int, |k: int| renumbered_at(tn@, of@, nf@, k)),
        decreases of.len() - i,
    {
        let ghost before = views(out@);
        renumbered_check(tn, of, nf, i, out);
        proof {
            assert(gather(i + 1, |k: int| renumbered_at(tn@, of@, nf@, k)) == gather(i as int, |k: int| renumbered_at(tn@, of@, nf@, k)) + renumbered_at(tn@, of@, nf@, i as int));
            assert(views(out@) =~= base + gather(i + 1, |k: int| renumbered_at(tn@, of@, nf@, k)));
        }
        i += 1;
    }
}

fn removed_oneofs_loop(tn: &str, oo: &Vec<OneofGroup>, no: &Vec<OneofGroup>, out: &mut Vec<Violation>)
    ensures
        views(final(out)@) == views(old(out)@) + removed_oneofs(tn@, oo@, no@),
{
    let ghost base = views(out@);
    let mut i: usize = 0;
    while i < oo.len()
        invariant
            i <= oo.len(),
            views(out@) == base + gather(i as int, |k: int| removed_oneof_at(tn@, oo@, no@, k)),
        decreases oo.len() - i,
    {
        let ghost before = views(out@);
        removed_oneof_check(tn, oo, no, i, out);
        proof {
            assert(gather(i + 1, |k: int| removed_oneof_at(tn@, oo@, no@, k)) == gather(i as int, |k: int| removed_oneof_at(tn@, oo@, no@, k)) + removed_oneof_at(tn@, oo@, no@, i as int));
            assert(views(out@) =~= base + gather(i + 1, |k: int| removed_oneof_at(tn@, oo@, no@, k)));
        }
        i += 1;
    }
}

fn oneof_field_removals_loop(tn: &str, oo: &Vec<OneofGroup>, no: &Vec<OneofGroup>, out: &mut Vec<Violation>)
    ensures
        views(final(out)@) == views(old(out)@) + oneof_field_removals(tn@, oo@, no@),
{
    let ghost base = views(out@);
    let mut i: usize = 0;
    while i < oo.len()
        invariant
            i <= oo.len(),
            views(out@) == base + gather(i as int, |k: int| oneof_fields_at(tn@, oo@, no@, k)),
        decreases oo.len() - i,
    {
        let ghost before = views(out@);
        oneof_fields_check(tn, oo, no, i, out);
        proof {
            assert(gather(i + 1, |k: int| oneof_fields_at(tn@, oo@, no@, k)) == gather(i as int, |k: int| oneof_fields_at(tn@, oo@, no@, k)) + oneof_fields_at(tn@, oo@, no@, i as int));
            assert(views(out@) =~= base + gather(i + 1, |k: int| oneof_fields_at(tn@, oo@, no@, k)));
        }
        i += 1;
    }
}

fn removed_oneof_fields_loop(on: &str, of: &Vec<OneofField>, nf: &Vec<OneofField>, out: &mut Vec<Violation>)
    ensures
        views(final(out)@) == views(old(out)@) + removed_oneof_fields(on@, of@, nf@),
{
    let ghost base = views(out@);
    let mut i: usize = 0;
    while i < of.len()
        invariant
            i <= of.len(),
            views(out@) == base + gather(i as int, |k: int| removed_oneof_field_at(on@, of@, nf@, k)),
        decreases of.len() - i,
    {
        let ghost before = views(out@);
        removed_oneof_field_check(on, of, nf, i, out);
        proof {
            assert(gather(i + 1, |k: int| removed_oneof_field_at(on@, of@, nf@, k)) == gather(i as int, |k: int| removed_oneof_field_at(on@, of@, nf@, k)) + removed_oneof_field_at(on@, of@, nf@, i as int));
            assert(views(out@) =~= base + gather(i + 1, |k: int| removed_oneof_field_at(on@, of@, nf@, k)));
        }
        i += 1;
    }
}

fn removed_enums_loop(o: &Vec<Enum>, w: &Vec<Enum>, out: &mut Vec<Violation>)
    ensures
        views(final(out)@) == views(old(out)@) + removed_enums(o@, w@),
{
    let ghost base = views(out@);
    let mut i: usize = 0;
    while i < o.len()
        invariant
            i <= o.len(),
            views(out@) == base + gather(i as int, |k: int| removed_enum_at(o@, w@, k)),
        decreases o.len() - i,
    {
        let ghost before = views(out@);
        removed_enum_check(o, w, i, out);
        proof {
            assert(gather(i + 1, |k: int| removed_enum_at(o@, w@, k)) == gather(i as int, |k: int| removed_enum_at(o@, w@, k)) + removed_enum_at(o@, w@, i as int));
            assert(views(out@) =~= base + gather(i + 1, |k: int| removed_enum_at(o@, w@, k)));
        }
        i += 1;
    }
}

fn added_enums_loop(o: &Vec<Enum>, w: &Vec<Enum>, out: &mut Vec<Violation>)
    ensures
        views(final(out)@) == views(old(out)@) + added_enums(o@, w@),
{
    let ghost base = views(out@);
    let mut i: usize = 0;
    while i < w.len()
        invariant
            i <= w.len(),
            views(out@) == base + gather(i as int, |k: int| added_enum_at(o@, w@, k)),
        decreases w.len() - i,
    {
        let ghost before = views(out@);
        added_enum_check(o, w, i, out);
        proof {
            assert(gather(i + 1, |k: int| added_enum_at(o@, w@, k)) == gather(i as int, |k: int| added_enum_at(o@, w@, k)) + added_enum_at(o@, w@, i as int));
            assert(views(out@) =~= base + gather(i + 1, |k: int| added_enum_at(o@, w@, k)));
        }
        i += 1;
    }
}

fn changed_enums_loop(o: &Vec<Enum>, w: &Vec<Enum>, out: &mut Vec<Violation>)
    ensures
        views(final(out)@) == views(old(out)@) + changed_enums(o@, w@),
{
    let ghost base = views(out@);
    let mut i: usize = 0;
    while i < o.len()
        invariant
            i <= o.len(),
            views(out@) == base + gather(i as int, |k: int| changed_enum_at(o@, w@, k)),
        decreases o.len() - i,
    {
        let ghost before = views(out@);
        changed_enum_check(o, w, i, out);
        proof {
            assert(gather(i + 1, |k: int| changed_enum_at(o@, w@, k)) == gather(i as int, |k: int| changed_enum_at(o@, w@, k)) + changed_enum_at(o@, w@, i as int));
            assert(views(out@) =~= base + gather(i + 1, |k: int| changed_enum_at(o@, w@, k)));
        }
        i += 1;
    }
}

fn removed_values_loop(en: &str, av: &Vec<EnumValue>, bv: &Vec<EnumValue>, out: &mut Vec<Violation>)
    ensures
        views(final(out)@) == views(old(out)@) + removed_values(en@, av@, bv@),
{
    let ghost base = views(out@);
    let mut i: usize = 0;
    while i < av.len()
        invariant
            i <= av.len(),
            views(out@) == base + gather(i as int, |k: int| removed_value_at(en@, av@, bv@, k)),
        decreases av.len() - i,
    {
        let ghost before = views(out@);
        removed_value_check(en, av, bv, i, out);
        proof {
            assert(gather(i + 1, |k: int| removed_value_at(en@, av@, bv@, k)) == gather(i as int, |k: int| removed_value_at(en@, av@, bv@, k)) + removed_value_at(en@, av@, bv@, i as int));
            assert(views(out@) =~= base + gather(i + 1, |k: int| removed_value_at(en@, av@, bv@, k)));
        }
        i += 1;
    }
}

fn added_values_loop(en: &str, av: &Vec<EnumValue>, bv: &Vec<EnumValue>, out: &mut Vec<Violation>)
    ensures
        views(final(out)@) == views(old(out)@) + added_values(en@, av@, bv@),
{
    let ghost base = views(out@);
    let mut i: usize = 0;
    while i < bv.len()
        invariant
            i <= bv.len(),
            views(out@) == base + gather(i as int, |k: int| added_value_at(en@, av@, bv@, k)),
        decreases bv.len() - i,
    {
        let ghost before = views(out@);
        added_value_check(en, av, bv, i, out);
        proof {
            assert(gather(i + 1, |k: int| added_value_at(en@, av@, bv@, k)) == gather(i as int, |k: int| added_value_at(en@, av@, bv@, k)) + added_value_at(en@, av@, bv@, i as int));
            assert(views(out@) =~= base + gather(i + 1, |k: int| added_value_at(en@, av@, bv@, k)));
        }
        i += 1;
    }
}

fn renamed_values_loop(en: &str, av: &Vec<EnumValue>, bv: &Vec<EnumValue>, out: &mut Vec<Violation>)
    ensures
        views(final(out)@) == views(old(out)@) + renamed_values(en@, av@, bv@),
{
    let ghost base = views(out@);
    let mut i: usize = 0;
    while i < av.len()
        invariant
            i <= av.len(),
            views(out@) == base + gather(i as int, |k: int| renamed_value_at(en@, av@, bv@, k)),
        decreases av.len() - i,
    {
        let ghost before = views(out@);
        renamed_value_check(en, av, bv, i, out);
        proof {
            assert(gather(i + 1, |k: int| renamed_value_at(en@, av@, bv@, k)) == gather(i as int, |k: int| renamed_value_at(en@, av@, bv@, k)) + renamed_value_at(en@, av@, bv@, i as int));
            assert(views(out@) =~= base + gather(i + 1, |k: int| renamed_value_at(en@, av@, bv@, k)));
        }
        i += 1;
    }
}

fn removed_services_loop(o: &Vec<Service>, w: &Vec<Service>, out: &mut Vec<Violation>)
    ensures
        views(final(out)@) == views(old(out)@) + removed_services(o@, w@),
{
    let ghost base = views(out@);
    let mut i: usize = 0;
    while i < o.len()
        invariant
            i <= o.len(),
            views(out@) == base + gather(i as int, |k: int| removed_service_at(o@, w@, k)),
        decreases o.len() - i,
    {
        let ghost before = views(out@);
        removed_service_check(o, w, i, out);
        proof {
            assert(gather(i + 1, |k: int| removed_service_at(o@, w@, k)) == gather(i as int, |k: int| removed_service_at(o@, w@, k)) + removed_service_at(o@, w@, i as int));
            assert(views(out@) =~= base + gather(i + 1, |k: int| removed_service_at(o@, w@, k)));
        }
        i += 1;
    }
}

fn changed_services_loop(o: &Vec<Service>, w: &Vec<Service>, out: &mut Vec<Violation>)
    ensures
        views(final(out)@) == views(old(out)@) + changed_services(o@, w@),
{
    let ghost base = views(out@);
    let mut i: usize = 0;
    while i < o.len()
        invariant
            i <= o.len(),
            views(out@) == base + gather(i as int, |k: int| changed_service_at(o@, w@, k)),
        decreases o.len() - i,
    {
        let ghost before = views(out@);
        changed_service_check(o, w, i, out);
        proof {
            assert(gather(i + 1, |k: int| changed_service_at(o@, w@, k)) == gather(i as int, |k: int| changed_service_at(o@, w@, k)) + changed_service_at(o@, w@, i as int));
            assert(views(out@) =~= base + gather(i + 1, |k: int| changed_service_at(o@, w@, k)));
        }
        i += 1;
    }
}

fn removed_rpcs_loop(sn: &str, ar: &Vec<Rpc>, br: &Vec<Rpc>, out: &mut Vec<Violation>)
    ensures
        views(final(out)@) == views(old(out)@) + removed_rpcs(sn@, ar@, br@),
{
    let ghost base = views(out@);
    let mut i: usize = 0;
    while i < ar.len()
        invariant
            i <= ar.len(),
            views(out@) == base + gather(i as int, |k: int| removed_rpc_at(sn@, ar@, br@, k)),
        decreases ar.len() - i,
    {
        let ghost before = views(out@);
        removed_rpc_check(sn, ar, br, i, out);
        proof {
            assert(gather(i + 1, |k: int| removed_rpc_at(sn@, ar@, br@, k)) == gather(i as int, |k: int| removed_rpc_at(sn@, ar@, br@, k)) + removed_rpc_at(sn@, ar@, br@, i as int));
            assert(views(out@) =~= base + gather(i + 1, |k: int| removed_rpc_at(sn@, ar@, br@, k)));
        }
        i += 1;
    }
}

fn added_rpcs_loop(sn: &str, ar: &Vec<Rpc>, br: &Vec<Rpc>, out: &mut Vec<Violation>)
    ensures
        views(final(out)@) == views(old(out)@) + added_rpcs(sn@, ar@, br@),
{
    let ghost base = views(out@);
    let mut i: usize = 0;
    while i < br.len()
        invariant
            i <= br.len(),
            views(out@) == base + gather(i as int, |k: int| added_rpc_at(sn@, ar@, br@, k)),
        decreases br.len() - i,
    {
        let ghost before = views(out@);
        added_rpc_check(sn, ar, br, i, out);
        proof {
            assert(gather(i + 1, |k: int| added_rpc_at(sn@, ar@, br@, k)) == gather(i as int, |k: int| added_rpc_at(sn@, ar@, br@, k)) + added_rpc_at(sn@, ar@, br@, i as int));
            assert(views(out@) =~= base + gather(i + 1, |k: int| added_rpc_at(sn@, ar@, br@, k)));
        }
        i += 1;
    }
}

fn changed_rpcs_loop(sn: &str, ar: &Vec<Rpc>, br: &Vec<Rpc>, out: &mut Vec<Violation>)
    ensures
        views(final(out)@) == views(old(out)@) + changed_rpcs(sn@, ar@, br@),
{
    let ghost base = views(out@);
    let mut i: usize = 0;
    while i < ar.len()
        invariant
            i <= ar.len(),
            views(out@) == base + gather(i as int, |k: int| changed_rpc_at(sn@, ar@, br@, k)),
        decreases ar.len() - i,
    {
        let ghost before = views(out@);
        changed_rpc_check(sn, ar, br, i, out);
        proof {
            assert(gather(i + 1, |k: int| changed_rpc_at(sn@, ar@, br@, k)) == gather(i as int, |k: int| changed_rpc_at(sn@, ar@, br@, k)) + changed_rpc_at(sn@, ar@, br@, i as int));
            assert(views(out@) =~= base + gather(i + 1, |k: int| changed_rpc_at(sn@, ar@, br@, k)));
        }
        i += 1;
    }
}

// ── One declaration at a time ──────────────────────────────────────────

fn removed_type_check(o: &Vec<Type>, w: &Vec<Type>, i: usize, out: &mut Vec<Violation>)
    requires
        i < o.len(),
    ensures
        views(final(out)@) == views(old(out)@) + removed_type_at(o@, w@, i as int),
{
    if kept_type(o, i) && last_type_named(w, &o[i].full_name).is_none() {
        let mut m = "type removed: ".to_owned();
        m.append(o[i].full_name.as_str());
        emit(out, Violation { level: Level::Error, code: "B001", message: m, context: o[i].full_name.clone() });
    }
    proof {
        assert(views(out@) =~= views(old(out)@) + removed_type_at(o@, w@, i as int));
    }
}

fn added_type_check(o: &Vec<Type>, w: &Vec<Type>, i: usize, out: &mut Vec<Violation>)
    requires
        i < w.len(),
    ensures
        views(final(out)@) == views(old(out)@) + added_type_at(o@, w@, i as int),
{
    if kept_type(w, i) && last_type_named(o, &w[i].full_name).is_none() {
        let mut m = "type added: ".to_owned();
        m.append(w[i].full_name.as_str());
        emit(out, Violation { level: Level::Info, code: "B002", message: m, context: w[i].full_name.clone() });
    }
    proof {
        assert(views(out@) =~= views(old(out)@) + added_type_at(o@, w@, i as int));
    }
}

fn changed_type_check(o: &Vec<Type>, w: &Vec<Type>, i: usize, out: &mut Vec<Violation>)
    requires
        i < o.len(),
    ensures
        views(final(out)@) == views(old(out)@) + changed_type_at(o@, w@, i as int),
{
    if kept_type(o, i) {
        match last_type_named(w, &o[i].full_name) {
            Some(j) => {
                compare_type_fields(o[i].full_name.as_str(), &o[i], &w[j], out);
                compare_type_oneofs(o[i].full_name.as_str(), &o[i], &w[j], out);
            },
            None => {},
        }
    }
    proof {
        assert(views(out@) =~= views(old(out)@) + changed_type_at(o@, w@, i as int));
    }
}

fn removed_field_check(tn: &str, of: &Vec<Field>, nf: &Vec<Field>, i: usize, out: &mut Vec<Violation>)
    requires
        i < of.len(),
    ensures
        views(final(out)@) == views(old(out)@) + removed_field_at(tn@, of@, nf@, i as int),
{
    if kept_field_number(of, i) && last_field_numbered(nf, of[i].number).is_none() {
        let ctx = dotted_string(tn, of[i].name.as_str());
        let mut m = "field removed: ".to_owned();
        m.append(ctx.as_str());
        let note = number_note_string(of[i].number as i64);
        m.append(note.as_str());
        emit(out, Violation { level: Level::Error, code: "B010", message: m, context: ctx });
    }
    proof {
        assert(views(out@) =~= views(old(out)@) + removed_field_at(tn@, of@, nf@, i as int));
    }
}

fn added_field_check(tn: &str, of: &Vec<Field>, nf: &Vec<Field>, i: usize, out: &mut Vec<Violation>)
    requires
        i < nf.len(),
    ensures
        views(final(out)@) == views(old(out)@) + added_field_at(tn@, of@, nf@, i as int),
{
    if kept_field_number(nf, i) && last_field_numbered(of, nf[i].number).is_none() {
        let ctx = dotted_string(tn, nf[i].name.as_str());
        let mut m = "field added: ".to_owned();
        m.append(ctx.as_str());
        let note = number_note_string(nf[i].number as i64);
        m.append(note.as_str());
        emit(out, Violation { level: Level::Info, code: "B011", message: m, context: ctx });
    }
    proof {
        assert(views(out@) =~= views(old(out)@) + added_field_at(tn@, of@, nf@, i as int));
    }
}

/// Compare two versions of the field with one number.
fn same_number_check(tn: &str, a: &Field, b: &Field, out: &mut Vec<Violation>)
    ensures
        views(final(out)@) == views(old(out)@) + same_number_changes(tn@, *a, *b),
{
    let ghost start = views(out@);
    let ctx = dotted_string(tn, b.name.as_str());
    let note = number_note_string(a.number as i64);
    let ghost s1 = if a.name@ != b.name@ {
        seq![
            (
                Level::Warning,
                "B012"@,
                "field renamed: "@ + dotted(tn@, a.name@) + " → "@ + b.name@ + note@,
                ctx@,
            ),
        ]
    } else {
        Seq::<ViolationView>::empty()
    };
    if a.name != b.name {
        let mut m = "field renamed: ".to_owned();
        let old_name = dotted_string(tn, a.name.as_str());
        m.append(old_name.as_str());
        m.append(" → ");
        m.append(b.name.as_str());
        m.append(note.as_str());
        emit(out, Violation { level: Level::Warning, code: "B012", message: m, context: ctx.clone() });
    }
    proof {
        assert(views(out@) =~= start + s1);
    }
    let old_wire = wire_type_of(a.type_ref.as_ref());
    let new_wire = wire_type_of(b.type_ref.as_ref());
    let ghost mid1 = views(out@);
    if old_wire != new_wire {
        let mut m = "field type changed: ".to_owned();
        m.append(ctx.as_str());
        m.append(note.as_str());
        m.append(": ");
        m.append(old_wire.as_str());
        m.append(" → ");
        m.append(new_wire.as_str());
        emit(out, Violation { level: Level::Error, code: "B013", message: m, context: ctx.clone() });
    }
    let ghost mid2 = views(out@);
    if a.is_repeated != b.is_repeated {
        let mut m = "field repeated changed: ".to_owned();
        m.append(ctx.as_str());
        m.append(note.as_str());
        m.append(": ");
        let x = bool_string(a.is_repeated);
        m.append(x.as_str());
        m.append(" → ");
        let y = bool_string(b.is_repeated);
        m.append(y.as_str());
        emit(out, Violation { level: Level::Error, code: "B014", message: m, context: ctx.clone() });
    }
    let ghost mid3 = views(out@);
    if a.is_optional != b.is_optional {
        let mut m = "field optionality changed: ".to_owned();
        m.append(ctx.as_str());
        m.append(note.as_str());
        m.append(": optional=");
        let x = bool_string(a.is_optional);
        m.append(x.as_str());
        m.append(" → optional=");
        let y = bool_string(b.is_optional);
        m.append(y.as_str());
        emit(out, Violation { level: Level::Warning, code: "B015", message: m, context: ctx });
    }
    proof {
        assert(old_wire@ == wire_text(a.type_ref));
        assert(new_wire@ == wire_text(b.type_ref));
        assert(views(out@) =~= views(old(out)@) + same_number_changes(tn@, *a, *b));
    }
}

fn kept_number_check(tn: &str, of: &Vec<Field>, nf: &Vec<Field>, i: usize, out: &mut Vec<Violation>)
    requires
        i < of.len(),
    ensures
        views(final(out)@) == views(old(out)@) + kept_number_at(tn@, of@, nf@, i as int),
{
    if kept_field_number(of, i) {
        match last_field_numbered(nf, of[i].number) {
            Some(j) => same_number_check(tn, &of[i], &nf[j], out),
            None => {},
        }
    }
    proof {
        assert(views(out@) =~= views(old(out)@) + kept_number_at(tn@, of@, nf@, i as int));
    }
}

fn renumbered_check(tn: &str, of: &Vec<Field>, nf: &Vec<Field>, i: usize, out: &mut Vec<Violation>)
    requires
        i < of.len(),
    ensures
        views(final(out)@) == views(old(out)@) + renumbered_at(tn@, of@, nf@, i as int),
{
    if kept_field_name(of, i) {
        match last_field_named(nf, &of[i].name) {
            Some(j) => {
                if of[i].number != nf[j].number {
                    let ctx = dotted_string(tn, of[i].name.as_str());
                    let mut m = "field number changed: ".to_owned();
                    m.append(ctx.as_str());
                    m.append(": ");
                    let x = int_string(of[i].number as i64);
                    m.append(x.as_str());
                    m.append(" → ");
                    let y = int_string(nf[j].number as i64);
                    m.append(y.as_str());
                    emit(out, Violation { level: Level::Error, code: "B016", message: m, context: ctx });
                }
            },
            None => {},
        }
    }
    proof {
        assert(views(out@) =~= views(old(out)@) + renumbered_at(tn@, of@, nf@, i as int));
    }
}

fn removed_oneof_check(tn: &str, oo: &Vec<OneofGroup>, no: &Vec<OneofGroup>, i: usize, out: &mut Vec<Violation>)
    requires
        i < oo.len(),
    ensures
        views(final(out)@) == views(old(out)@) + removed_oneof_at(tn@, oo@, no@, i as int),
{
    if kept_oneof(oo, i) && last_oneof_named(no, &oo[i].name).is_none() {
        let ctx = dotted_string(tn, oo[i].name.as_str());
        let mut m = "oneof removed: ".to_owned();
        m.append(ctx.as_str());
        emit(out, Violation { level: Level::Error, code: "B020", message: m, context: ctx });
    }
    proof {
        assert(views(out@) =~= views(old(out)@) + removed_oneof_at(tn@, oo@, no@, i as int));
    }
}

fn oneof_fields_check(tn: &str, oo: &Vec<OneofGroup>, no: &Vec<OneofGroup>, i: usize, out: &mut Vec<Violation>)
    requires
        i < oo.len(),
    ensures
        views(final(out)@) == views(old(out)@) + oneof_fields_at(tn@, oo@, no@, i as int),
{
    if kept_oneof(oo, i) {
        match last_oneof_named(no, &oo[i].name) {
            Some(j) => {
                let on = dotted_string(tn, oo[i].name.as_str());
                removed_oneof_fields_loop(on.as_str(), &oo[i].fields, &no[j].fields, out);
            },
            None => {},
        }
    }
    proof {
        assert(views(out@) =~= views(old(out)@) + oneof_fields_at(tn@, oo@, no@, i as int));
    }
}

fn removed_oneof_field_check(on: &str, of: &Vec<OneofField>, nf: &Vec<OneofField>, k: usize, out: &mut Vec<Violation>)
    requires
        k < of.len(),
    ensures
        views(final(out)@) == views(old(out)@) + removed_oneof_field_at(on@, of@, nf@, k as int),
{
    if kept_oneof_field(of, k) && last_oneof_field_numbered(nf, of[k].number).is_none() {
        let ctx = dotted_string(on, of[k].name.as_str());
        let mut m = "oneof field removed: ".to_owned();
        m.append(ctx.as_str());
        let note = number_note_string(of[k].number as i64);
        m.append(note.as_str());
        emit(out, Violation { level: Level::Error, code: "B021", message: m, context: ctx });
    }
    proof {
        assert(views(out@) =~= views(old(out)@) + removed_oneof_field_at(on@, of@, nf@, k as int));
    }
}

fn removed_enum_check(o: &Vec<Enum>, w: &Vec<Enum>, i: usize, out: &mut Vec<Violation>)
    requires
        i < o.len(),
    ensures
        views(final(out)@) == views(old(out)@) + removed_enum_at(o@, w@, i as int),
{
    if kept_enum(o, i) && last_enum_named(w, &o[i].full_name).is_none() {
        let mut m = "enum removed: ".to_owned();
        m.append(o[i].full_name.as_str());
        emit(out, Violation { level: Level::Error, code: "B030", message: m, context: o[i].full_name.clone() });
    }
    proof {
        assert(views(out@) =~= views(old(out)@) + removed_enum_at(o@, w@, i as int));
    }
}

fn added_enum_check(o: &Vec<Enum>, w: &Vec<Enum>, i: usize, out: &mut Vec<Violation>)
    requires
        i < w.len(),
    ensures
        views(final(out)@) == views(old(out)@) + added_enum_at(o@, w@, i as int),
{
    if kept_enum(w, i) && last_enum_named(o, &w[i].full_name).is_none() {
        let mut m = "enum added: ".to_owned();
        m.append(w[i].full_name.as_str());
        emit(out, Violation { level: Level::Info, code: "B031", message: m, context: w[i].full_name.clone() });
    }
    proof {
        assert(views(out@) =~= views(old(out)@) + added_enum_at(o@, w@, i as int));
    }
}

fn changed_enum_check(o: &Vec<Enum>, w: &Vec<Enum>, i: usize, out: &mut Vec<Violation>)
    requires
        i < o.len(),
    ensures
        views(final(out)@) == views(old(out)@) + changed_enum_at(o@, w@, i as int),
{
    if kept_enum(o, i) {
        match last_enum_named(w, &o[i].full_name) {
            Some(j) => {
                let en = o[i].full_name.as_str();
                let ghost before = views(out@);
                removed_values_loop(en, &o[i].values, &w[j].values, out);
                added_values_loop(en, &o[i].values, &w[j].values, out);
                renamed_values_loop(en, &o[i].values, &w[j].values, out);
                proof {
                    assert(views(out@) =~= before + value_changes(en@, o[i as int].values@, w[j as int].values@));
                }
            },
            None => {},
        }
    }
    proof {
        assert(views(out@) =~= views(old(out)@) + changed_enum_at(o@, w@, i as int));
    }
}

fn removed_value_check(en: &str, av: &Vec<EnumValue>, bv: &Vec<EnumValue>, k: usize, out: &mut Vec<Violation>)
    requires
        k < av.len(),
    ensures
        views(final(out)@) == views(old(out)@) + removed_value_at(en@, av@, bv@, k as int),
{
    if kept_value(av, k) && last_value_numbered(bv, av[k].number).is_none() {
        let ctx = dotted_string(en, av[k].name.as_str());
        let mut m = "enum value removed: ".to_owned();
        m.append(ctx.as_str());
        let note = number_note_string(av[k].number as i64);
        m.append(note.as_str());
        emit(out, Violation { level: Level::Error, code: "B032", message: m, context: ctx });
    }
    proof {
        assert(views(out@) =~= views(old(out)@) + removed_value_at(en@, av@, bv@, k as int));
    }
}

fn added_value_check(en: &str, av: &Vec<EnumValue>, bv: &Vec<EnumValue>, k: usize, out: &mut Vec<Violation>)
    requires
        k < bv.len(),
    ensures
        views(final(out)@) == views(old(out)@) + added_value_at(en@, av@, bv@, k as int),
{
    if kept_value(bv, k) && last_value_numbered(av, bv[k].number).is_none() {
        let ctx = dotted_string(en, bv[k].name.as_str());
        let mut m = "enum value added: ".to_owned();
        m.append(ctx.as_str());
        let note = number_note_string(bv[k].number as i64);
        m.append(note.as_str());
        emit(out, Violation { level: Level::Info, code: "B033", message: m, context: ctx });
    }
    proof {
        assert(views(out@) =~= views(old(out)@) + added_value_at(en@, av@, bv@, k as int));
    }
}

fn renamed_value_check(en: &str, av: &Vec<EnumValue>, bv: &Vec<EnumValue>, k: usize, out: &mut Vec<Violation>)
    requires
        k < av.len(),
    ensures
        views(final(out)@) == views(old(out)@) + renamed_value_at(en@, av@, bv@, k as int),
{
    if kept_value(av, k) {
        match last_value_numbered(bv, av[k].number) {
            Some(j) => {
                if av[k].name != bv[j].name {
                    let mut m = "enum value renamed: ".to_owned();
                    m.append(en);
                    m.append(": ");
                    m.append(av[k].name.as_str());
                    m.append(" → ");
                    m.append(bv[j].name.as_str());
                    let note = number_note_string(av[k].number as i64);
                    m.append(note.as_str());
                    let ctx = dotted_string(en, bv[j].name.as_str());
                    emit(out, Violation { level: Level::Warning, code: "B034", message: m, context: ctx });
                }
            },
            None => {},
        }
    }
    proof {
        assert(views(out@) =~= views(old(out)@) + renamed_value_at(en@, av@, bv@, k as int));
    }
}

fn removed_service_check(o: &Vec<Service>, w: &Vec<Service>, i: usize, out: &mut Vec<Violation>)
    requires
        i < o.len(),
    ensures
        views(final(out)@) == views(old(out)@) + removed_service_at(o@, w@, i as int),
{
    if kept_service(o, i) && last_service_named(w, &o[i].full_name).is_none() {
        let mut m = "service removed: ".to_owned();
        m.append(o[i].full_name.as_str());
        emit(out, Violation { level: Level::Error, code: "B040", message: m, context: o[i].full_name.clone() });
    }
    proof {
        assert(views(out@) =~= views(old(out)@) + removed_service_at(o@, w@, i as int));
    }
}

fn changed_service_check(o: &Vec<Service>, w: &Vec<Service>, i: usize, out: &mut Vec<Violation>)
    requires
        i < o.len(),
    ensures
        views(final(out)@) == views(old(out)@) + changed_service_at(o@, w@, i as int),
{
    if kept_service(o, i) {
        match last_service_named(w, &o[i].full_name) {
            Some(j) => {
                let sn = o[i].full_name.as_str();
                let ghost before = views(out@);
                removed_rpcs_loop(sn, &o[i].rpcs, &w[j].rpcs, out);
                added_rpcs_loop(sn, &o[i].rpcs, &w[j].rpcs, out);
                changed_rpcs_loop(sn, &o[i].rpcs, &w[j].rpcs, out);
                proof {
                    assert(views(out@) =~= before + rpc_changes(sn@, o[i as int].rpcs@, w[j as int].rpcs@));
                }
            },
            None => {},
        }
    }
    proof {
        assert(views(out@) =~= views(old(out)@) + changed_service_at(o@, w@, i as int));
    }
}

fn removed_rpc_check(sn: &str, ar: &Vec<Rpc>, br: &Vec<Rpc>, k: usize, out: &mut Vec<Violation>)
    requires
        k < ar.len(),
    ensures
        views(final(out)@) == views(old(out)@) + removed_rpc_at(sn@, ar@, br@, k as int),
{
    if kept_rpc(ar, k) && last_rpc_named(br, &ar[k].name).is_none() {
        let ctx = dotted_string(sn, ar[k].name.as_str());
        let mut m = "rpc removed: ".to_owned();
        m.append(ctx.as_str());
        emit(out, Violation { level: Level::Warning, code: "B041", message: m, context: ctx });
    }
    proof {
        assert(views(out@) =~= views(old(out)@) + removed_rpc_at(sn@, ar@, br@, k as int));
    }
}

fn added_rpc_check(sn: &str, ar: &Vec<Rpc>, br: &Vec<Rpc>, k: usize, out: &mut Vec<Violation>)
    requires
        k < br.len(),
    ensures
        views(final(out)@) == views(old(out)@) + added_rpc_at(sn@, ar@, br@, k as int),
{
    if kept_rpc(br, k) && last_rpc_named(ar, &br[k].name).is_none() {
        let ctx = dotted_string(sn, br[k].name.as_str());
        let mut m = "rpc added: ".to_owned();
        m.append(ctx.as_str());
        emit(out, Violation { level: Level::Info, code: "B042", message: m, context: ctx });
    }
    proof {
        assert(views(out@) =~= views(old(out)@) + added_rpc_at(sn@, ar@, br@, k as int));
    }
}

/// Compare two versions of one rpc.
fn rpc_diff_check(ctx: &str, x: &Rpc, y: &Rpc, out: &mut Vec<Violation>)
    ensures
        views(final(out)@) == views(old(out)@) + rpc_diffs(ctx@, *x, *y),
{
    let old_in = rpc_param_sig(x.input.as_ref());
    let new_in = rpc_param_sig(y.input.as_ref());
    let ghost v0 = views(out@);
    if old_in != new_in {
        let mut m = "rpc input changed: ".to_owned();
        m.append(ctx);
        m.append(": ");
        m.append(old_in.as_str());
        m.append(" → ");
        m.append(new_in.as_str());
        emit(out, Violation { level: Level::Error, code: "B043", message: m, context: ctx.to_owned() });
    }
    let old_out = rpc_param_sig(x.output.as_ref());
    let new_out = rpc_param_sig(y.output.as_ref());
    if old_out != new_out {
        let mut m = "rpc output changed: ".to_owned();
        m.append(ctx);
        m.append(": ");
        m.append(old_out.as_str());
        m.append(" → ");
        m.append(new_out.as_str());
        emit(out, Violation { level: Level::Error, code: "B044", message: m, context: ctx.to_owned() });
    }
    let old_in_stream = match &x.input {
        Some(p) => p.is_stream,
        None => false,
    };
    let new_in_stream = match &y.input {
        Some(p) => p.is_stream,
        None => false,
    };
    let old_out_stream = match &x.output {
        Some(p) => p.is_stream,
        None => false,
    };
    let new_out_stream = match &y.output {
        Some(p) => p.is_stream,
        None => false,
    };
    if old_in_stream != new_in_stream || old_out_stream != new_out_stream {
        let mut m = "rpc streaming changed: ".to_owned();
        m.append(ctx);
        emit(out, Violation { level: Level::Error, code: "B045", message: m, context: ctx.to_owned() });
    }
    proof {
        assert(old_in@ == param_sig(x.input));
        assert(new_in@ == param_sig(y.input));
        assert(old_out@ == param_sig(x.output));
        assert(new_out@ == param_sig(y.output));
        assert(views(out@) =~= views(old(out)@) + rpc_diffs(ctx@, *x, *y));
    }
}

fn changed_rpc_check(sn: &str, ar: &Vec<Rpc>, br: &Vec<Rpc>, k: usize, out: &mut Vec<Violation>)
    requires
        k < ar.len(),
    ensures
        views(final(out)@) == views(old(out)@) + changed_rpc_at(sn@, ar@, br@, k as int),
{
    if kept_rpc(ar, k) {
        match last_rpc_named(br, &ar[k].name) {
            Some(j) => {
                let ctx = dotted_string(sn, ar[k].name.as_str());
                rpc_diff_check(ctx.as_str(), &ar[k], &br[j], out);
            },
            None => {},
        }
    }
    proof {
        assert(views(out@) =~= views(old(out)@) + changed_rpc_at(sn@, ar@, br@, k as int));
    }
}

// ── Comparison ─────────────────────────────────────────────────────────

/// Compare two modules and return all violations: type changes, then enum
/// changes, then service changes.
pub fn compare(old: &Module, new: &Module) -> (violations: Vec<Violation>)
    ensures
        views(violations@) == changes(*old, *new),
{
    let mut violations: Vec<Violation> = Vec::new();
    proof {
        assert(views(violations@) =~= Seq::<ViolationView>::empty());
    }
    compare_types(old, new, &mut violations);
    compare_enums(old, new, &mut violations);
    compare_services(old, new, &mut violations);
    proof {
        assert(views(violations@) =~= changes(*old, *new));
    }
    violations
}

fn compare_types(older: &Module, newer: &Module, out: &mut Vec<Violation>)
    ensures
        views(final(out)@) == views(old(out)@) + type_changes(older.types@, newer.types@),
{
    let ghost start = views(out@);
    removed_types_loop(&older.types, &newer.types, out);
    added_types_loop(&older.types, &newer.types, out);
    changed_types_loop(&older.types, &newer.types, out);
    proof {
        assert(views(out@) =~= start + type_changes(older.types@, newer.types@));
    }
}

fn compare_type_fields(tname: &str, old_type: &Type, new_type: &Type, out: &mut Vec<Violation>)
    ensures
        views(final(out)@) == views(old(out)@) + field_changes(tname@, old_type.fields@, new_type.fields@),
{
    let ghost start = views(out@);
    removed_fields_loop(tname, &old_type.fields, &new_type.fields, out);
    added_fields_loop(tname, &old_type.fields, &new_type.fields, out);
    kept_numbers_loop(tname, &old_type.fields, &new_type.fields, out);
    renumbered_loop(tname, &old_type.fields, &new_type.fields, out);
    proof {
        assert(views(out@) =~= start + field_changes(tname@, old_type.fields@, new_type.fields@));
    }
}

fn compare_type_oneofs(tname: &str, old_type: &Type, new_type: &Type, out: &mut Vec<Violation>)
    ensures
        views(final(out)@) == views(old(out)@) + oneof_changes(tname@, old_type.oneofs@, new_type.oneofs@),
{
    let ghost start = views(out@);
    removed_oneofs_loop(tname, &old_type.oneofs, &new_type.oneofs, out);
    oneof_field_removals_loop(tname, &old_type.oneofs, &new_type.oneofs, out);
    proof {
        assert(views(out@) =~= start + oneof_changes(tname@, old_type.oneofs@, new_type.oneofs@));
    }
}

fn compare_enums(older: &Module, newer: &Module, out: &mut Vec<Violation>)
    ensures
        views(final(out)@) == views(old(out)@) + enum_changes(older.enums@, newer.enums@),
{
    let ghost start = views(out@);
    removed_enums_loop(&older.enums, &newer.enums, out);
    added_enums_loop(&older.enums, &newer.enums, out);
    changed_enums_loop(&older.enums, &newer.enums, out);
    proof {
        assert(views(out@) =~= start + enum_changes(older.enums@, newer.enums@));
    }
}

fn compare_services(older: &Module, newer: &Module, out: &mut Vec<Violation>)
    ensures
        views(final(out)@) == views(old(out)@) + service_changes(older.services@, newer.services@),
{
    let ghost start = views(out@);
    removed_services_loop(&older.services, &newer.services, out);
    changed_services_loop(&older.services, &newer.services, out);
    proof {
        assert(views(out@) =~= start + service_changes(older.services@, newer.services@));
    }
}

// ── Laws ───────────────────────────────────────────────────────────────

proof fn lemma_gather_empty(n: int, f: spec_fn(int) -> Seq<ViolationView>)
    requires
        forall|k: int| 0 <= k < n ==> #[trigger] f(k) == Seq::<ViolationView>::empty(),
    ensures
        gather(n, f) == Seq::<ViolationView>::empty(),
    decreases n,
{
    if n > 0 {
        lemma_gather_empty(n - 1, f);
        assert(gather(n, f) =~= gather(n - 1, f) + f(n - 1));
    }
}

proof fn lemma_own_key<A, K>(s: Seq<A>, key: spec_fn(A) -> K, i: int)
    requires
        0 <= i < s.len(),
    ensures
        has_key(s, key, key(s[i])),
{
    assert(0 <= i < s.len() && key(s[i]) == key(s[i]));
}

proof fn lemma_fields_self(tn: Seq<char>, f: Seq<Field>)
    ensures
        field_changes(tn, f, f) == Seq::<ViolationView>::empty(),
{
    let e = Seq::<ViolationView>::empty();
    assert forall|k: int| 0 <= k < f.len() implies removed_field_at(tn, f, f, k) == e && added_field_at(tn, f, f, k) == e && kept_number_at(tn, f, f, k) == e && renumbered_at(tn, f, f, k) == e by {
        lemma_own_key(f, field_num(), k);
        lemma_own_key(f, field_name(), k);
        assert(same_number_changes(tn, f[k], f[k]) =~= e);
    }
    lemma_gather_empty(f.len() as int, |k: int| removed_field_at(tn, f, f, k));
    lemma_gather_empty(f.len() as int, |k: int| added_field_at(tn, f, f, k));
    lemma_gather_empty(f.len() as int, |k: int| kept_number_at(tn, f, f, k));
    lemma_gather_empty(f.len() as int, |k: int| renumbered_at(tn, f, f, k));
    assert(field_changes(tn, f, f) =~= e);
}

proof fn lemma_oneofs_self(tn: Seq<char>, oo: Seq<OneofGroup>)
    ensures
        oneof_changes(tn, oo, oo) == Seq::<ViolationView>::empty(),
{
    let e = Seq::<ViolationView>::empty();
    assert forall|k: int| 0 <= k < oo.len() implies removed_oneof_at(tn, oo, oo, k) == e && oneof_fields_at(tn, oo, oo, k) == e by {
        lemma_own_key(oo, oneof_key(), k);
        let of = oo[k].fields@;
        assert forall|j: int| 0 <= j < of.len() implies removed_oneof_field_at(dotted(tn, oo[k].name@), of, of, j) == e by {
            lemma_own_key(of, oneof_field_num(), j);
        }
        lemma_gather_empty(of.len() as int, |j: int| removed_oneof_field_at(dotted(tn, oo[k].name@), of, of, j));
    }
    lemma_gather_empty(oo.len() as int, |k: int| removed_oneof_at(tn, oo, oo, k));
    lemma_gather_empty(oo.len() as int, |k: int| oneof_fields_at(tn, oo, oo, k));
    assert(oneof_changes(tn, oo, oo) =~= e);
}

proof fn lemma_types_self(o: Seq<Type>)
    ensures
        type_changes(o, o) == Seq::<ViolationView>::empty(),
{
    let e = Seq::<ViolationView>::empty();
    assert forall|k: int| 0 <= k < o.len() implies removed_type_at(o, o, k) == e && added_type_at(o, o, k) == e && changed_type_at(o, o, k) == e by {
        lemma_own_key(o, type_key(), k);
        lemma_fields_self(o[k].full_name@, o[k].fields@);
        lemma_oneofs_self(o[k].full_name@, o[k].oneofs@);
    }
    lemma_gather_empty(o.len() as int, |k: int| removed_type_at(o, o, k));
    lemma_gather_empty(o.len() as int, |k: int| added_type_at(o, o, k));
    lemma_gather_empty(o.len() as int, |k: int| changed_type_at(o, o, k));
    assert(type_changes(o, o) =~= e);
}

proof fn lemma_values_self(en: Seq<char>, v: Seq<EnumValue>)
    ensures
        value_changes(en, v, v) == Seq::<ViolationView>::empty(),
{
    let e = Seq::<ViolationView>::empty();
    assert forall|k: int| 0 <= k < v.len() implies removed_value_at(en, v, v, k) == e && added_value_at(en, v, v, k) == e && renamed_value_at(en, v, v, k) == e by {
        lemma_own_key(v, value_num(), k);
    }
    lemma_gather_empty(v.len() as int, |k: int| removed_value_at(en, v, v, k));
    lemma_gather_empty(v.len() as int, |k: int| added_value_at(en, v, v, k));
    lemma_gather_empty(v.len() as int, |k: int| renamed_value_at(en, v, v, k));
    assert(value_changes(en, v, v) =~= e);
}

proof fn lemma_enums_self(o: Seq<Enum>)
    ensures
        enum_changes(o, o) == Seq::<ViolationView>::empty(),
{
    let e = Seq::<ViolationView>::empty();
    assert forall|k: int| 0 <= k < o.len() implies removed_enum_at(o, o, k) == e && added_enum_at(o, o, k) == e && changed_enum_at(o, o, k) == e by {
        lemma_own_key(o, enum_key(), k);
        lemma_values_self(o[k].full_name@, o[k].values@);
    }
    lemma_gather_empty(o.len() as int, |k: int| removed_enum_at(o, o, k));
    lemma_gather_empty(o.len() as int, |k: int| added_enum_at(o, o, k));
    lemma_gather_empty(o.len() as int, |k: int| changed_enum_at(o, o, k));
    assert(enum_changes(o, o) =~= e);
}

proof fn lemma_rpcs_self(sn: Seq<char>, r: Seq<Rpc>)
    ensures
        rpc_changes(sn, r, r) == Seq::<ViolationView>::empty(),
{
    let e = Seq::<ViolationView>::empty();
    assert forall|k: int| 0 <= k < r.len() implies removed_rpc_at(sn, r, r, k) == e && added_rpc_at(sn, r, r, k) == e && changed_rpc_at(sn, r, r, k) == e by {
        lemma_own_key(r, rpc_key(), k);
        assert(rpc_diffs(dotted(sn, r[k].name@), r[k], r[k]) =~= e);
    }
    lemma_gather_empty(r.len() as int, |k: int| removed_rpc_at(sn, r, r, k));
    lemma_gather_empty(r.len() as int, |k: int| added_rpc_at(sn, r, r, k));
    lemma_gather_empty(r.len() as int, |k: int| changed_rpc_at(sn, r, r, k));
    assert(rpc_changes(sn, r, r) =~= e);
}

proof fn lemma_services_self(o: Seq<Service>)
    ensures
        service_changes(o, o) == Seq::<ViolationView>::empty(),
{
    let e = Seq::<ViolationView>::empty();
    assert forall|k: int| 0 <= k < o.len() implies removed_service_at(o, o, k) == e && changed_service_at(o, o, k) == e by {
        lemma_own_key(o, service_key(), k);
        lemma_rpcs_self(o[k].full_name@, o[k].rpcs@);
    }
    lemma_gather_empty(o.len() as int, |k: int| removed_service_at(o, o, k));
    lemma_gather_empty(o.len() as int, |k: int| changed_service_at(o, o, k));
    assert(service_changes(o, o) =~= e);
}

/// Comparing a module with itself reports no violation.
pub proof fn lemma_compare_self(m: Module)
    ensures
        changes(m, m) == Seq::<ViolationView>::empty(),
{
    lemma_types_self(m.types@);
    lemma_enums_self(m.enums@);
    lemma_services_self(m.services@);
    assert(changes(m, m) =~= Seq::<ViolationView>::empty());
}


// ── Comparing a module with a copy of itself ───────────────────────────

proof fn lemma_keys_same<A, K>(o: Seq<A>, w: Seq<A>, key: spec_fn(A) -> K)
    requires
        w.len() == o.len(),
        forall|j: int| 0 <= j < o.len() ==> key(#[trigger] w[j]) == key(o[j]),
    ensures
        forall|x: K| #[trigger] has_key(w, key, x) == has_key(o, key, x),
        forall|x: K| #[trigger] last_with(w, key, x) == last_with(o, key, x),
        forall|i: int| #[trigger] kept_at(w, key, i) == kept_at(o, key, i),
    decreases o.len(),
{
    assert forall|x: K| #[trigger] has_key(w, key, x) == has_key(o, key, x) by {
        if has_key(w, key, x) {
            let j = choose|j: int| 0 <= j < w.len() && key(w[j]) == x;
            assert(0 <= j < o.len() && key(o[j]) == x);
        }
        if has_key(o, key, x) {
            let j = choose|j: int| 0 <= j < o.len() && key(o[j]) == x;
            assert(0 <= j < w.len() && key(w[j]) == x);
        }
    }
    if o.len() > 0 {
        lemma_keys_same(o.drop_last(), w.drop_last(), key);
        assert forall|x: K| #[trigger] last_with(w, key, x) == last_with(o, key, x) by {
            assert(key(w.last()) == key(o.last()));
            assert(last_with(w.drop_last(), key, x) == last_with(o.drop_last(), key, x));
        }
    }
    assert forall|i: int| #[trigger] kept_at(w, key, i) == kept_at(o, key, i) by {
        if 0 <= i < o.len() {
            assert(key(w[i]) == key(o[i]));
        }
    }
}

proof fn lemma_wire_same(a: TypeReference, b: TypeReference)
    requires
        ref_same(a, b),
    ensures
        wire_ref(a) == wire_ref(b),
    decreases a,
{
    if let Some(TypeRefKind::MapType(x)) = a.kind {
        if let Some(TypeRefKind::MapType(y)) = b.kind {
            if let (Some(k), Some(k2)) = (x.key, y.key) {
                lemma_wire_same(*k, *k2);
            }
            if let (Some(v), Some(v2)) = (x.value, y.value) {
                lemma_wire_same(*v, *v2);
            }
        }
    }
}

proof fn lemma_wire_text_same(a: Option<TypeReference>, b: Option<TypeReference>)
    requires
        opt_ref_same(a, b),
    ensures
        wire_text(a) == wire_text(b),
{
    if let (Some(x), Some(y)) = (a, b) {
        lemma_wire_same(x, y);
    }
}

proof fn lemma_fields_same(tn: Seq<char>, f: Seq<Field>, g: Seq<Field>)
    requires
        g.len() == f.len(),
        forall|j: int| 0 <= j < f.len() ==> field_same(f[j], #[trigger] g[j]),
    ensures
        field_changes(tn, f, g) == Seq::<ViolationView>::empty(),
{
    let e = Seq::<ViolationView>::empty();
    lemma_keys_same(f, g, field_num());
    lemma_keys_same(f, g, field_name());
    assert forall|k: int| 0 <= k < f.len() implies removed_field_at(tn, f, g, k) == e && added_field_at(tn, f, g, k) == e
        && kept_number_at(tn, f, g, k) == e && renumbered_at(tn, f, g, k) == e by {
        lemma_own_key(f, field_num(), k);
        lemma_own_key(f, field_name(), k);
        assert(field_same(f[k], g[k]));
        lemma_wire_text_same(f[k].type_ref, g[k].type_ref);
        assert(has_key(f, field_num(), g[k].number));
        assert(same_number_changes(tn, f[k], g[k]) =~= e);
    }
    lemma_gather_empty(f.len() as int, |k: int| removed_field_at(tn, f, g, k));
    lemma_gather_empty(g.len() as int, |k: int| added_field_at(tn, f, g, k));
    lemma_gather_empty(f.len() as int, |k: int| kept_number_at(tn, f, g, k));
    lemma_gather_empty(f.len() as int, |k: int| renumbered_at(tn, f, g, k));
    assert(field_changes(tn, f, g) =~= e);
}

proof fn lemma_oneofs_same(tn: Seq<char>, oo: Seq<OneofGroup>, no: Seq<OneofGroup>)
    requires
        no.len() == oo.len(),
        forall|j: int| 0 <= j < oo.len() ==> oneof_same(oo[j], #[trigger] no[j]),
    ensures
        oneof_changes(tn, oo, no) == Seq::<ViolationView>::empty(),
{
    let e = Seq::<ViolationView>::empty();
    lemma_keys_same(oo, no, oneof_key());
    assert forall|k: int| 0 <= k < oo.len() implies removed_oneof_at(tn, oo, no, k) == e && oneof_fields_at(tn, oo, no, k) == e by {
        lemma_own_key(oo, oneof_key(), k);
        assert(oneof_same(oo[k], no[k]));
        let of = oo[k].fields@;
        let nf = no[k].fields@;
        lemma_keys_same(of, nf, oneof_field_num());
        assert forall|j: int| 0 <= j < of.len() implies removed_oneof_field_at(dotted(tn, oo[k].name@), of, nf, j) == e by {
            lemma_own_key(of, oneof_field_num(), j);
        }
        lemma_gather_empty(of.len() as int, |j: int| removed_oneof_field_at(dotted(tn, oo[k].name@), of, nf, j));
    }
    lemma_gather_empty(oo.len() as int, |k: int| removed_oneof_at(tn, oo, no, k));
    lemma_gather_empty(oo.len() as int, |k: int| oneof_fields_at(tn, oo, no, k));
    assert(oneof_changes(tn, oo, no) =~= e);
}

proof fn lemma_types_same(o: Seq<Type>, w: Seq<Type>)
    requires
        w.len() == o.len(),
        forall|j: int| 0 <= j < o.len() ==> type_same(o[j], #[trigger] w[j]),
    ensures
        type_changes(o, w) == Seq::<ViolationView>::empty(),
{
    let e = Seq::<ViolationView>::empty();
    lemma_keys_same(o, w, type_key());
    assert forall|k: int| 0 <= k < o.len() implies removed_type_at(o, w, k) == e && added_type_at(o, w, k) == e && changed_type_at(o, w, k) == e by {
        lemma_own_key(o, type_key(), k);
        assert(type_same(o[k], w[k]));
        assert(has_key(o, type_key(), w[k].full_name@));
        lemma_fields_same(o[k].full_name@, o[k].fields@, w[k].fields@);
        lemma_oneofs_same(o[k].full_name@, o[k].oneofs@, w[k].oneofs@);
    }
    lemma_gather_empty(o.len() as int, |k: int| removed_type_at(o, w, k));
    lemma_gather_empty(w.len() as int, |k: int| added_type_at(o, w, k));
    lemma_gather_empty(o.len() as int, |k: int| changed_type_at(o, w, k));
    assert(type_changes(o, w) =~= e);
}

proof fn lemma_values_same(en: Seq<char>, v: Seq<EnumValue>, u: Seq<EnumValue>)
    requires
        u.len() == v.len(),
        forall|j: int| 0 <= j < v.len() ==> (#[trigger] u[j]).name@ == v[j].name@ && u[j].number == v[j].number,
    ensures
        value_changes(en, v, u) == Seq::<ViolationView>::empty(),
{
    let e = Seq::<ViolationView>::empty();
    lemma_keys_same(v, u, value_num());
    assert forall|k: int| 0 <= k < v.len() implies removed_value_at(en, v, u, k) == e && added_value_at(en, v, u, k) == e && renamed_value_at(en, v, u, k) == e by {
        lemma_own_key(v, value_num(), k);
        assert(u[k].number == v[k].number);
        assert(has_key(v, value_num(), u[k].number));
    }
    lemma_gather_empty(v.len() as int, |k: int| removed_value_at(en, v, u, k));
    lemma_gather_empty(u.len() as int, |k: int| added_value_at(en, v, u, k));
    lemma_gather_empty(v.len() as int, |k: int| renamed_value_at(en, v, u, k));
    assert(value_changes(en, v, u) =~= e);
}

proof fn lemma_enums_same(o: Seq<Enum>, w: Seq<Enum>)
    requires
        w.len() == o.len(),
        forall|j: int| 0 <= j < o.len() ==> enum_same(o[j], #[trigger] w[j]),
    ensures
        enum_changes(o, w) == Seq::<ViolationView>::empty(),
{
    let e = Seq::<ViolationView>::empty();
    lemma_keys_same(o, w, enum_key());
    assert forall|k: int| 0 <= k < o.len() implies removed_enum_at(o, w, k) == e && added_enum_at(o, w, k) == e && changed_enum_at(o, w, k) == e by {
        lemma_own_key(o, enum_key(), k);
        assert(enum_same(o[k], w[k]));
        assert(has_key(o, enum_key(), w[k].full_name@));
        lemma_values_same(o[k].full_name@, o[k].values@, w[k].values@);
    }
    lemma_gather_empty(o.len() as int, |k: int| removed_enum_at(o, w, k));
    lemma_gather_empty(w.len() as int, |k: int| added_enum_at(o, w, k));
    lemma_gather_empty(o.len() as int, |k: int| changed_enum_at(o, w, k));
    assert(enum_changes(o, w) =~= e);
}

proof fn lemma_param_same(a: Option<RpcParam>, b: Option<RpcParam>)
    requires
        opt_param_same(a, b),
    ensures
        param_sig(a) == param_sig(b),
        streams(a) == streams(b),
{
    if let (Some(x), Some(y)) = (a, b) {
        lemma_wire_text_same(x.type_ref, y.type_ref);
    }
}

proof fn lemma_rpcs_same(sn: Seq<char>, r: Seq<Rpc>, q: Seq<Rpc>)
    requires
        q.len() == r.len(),
        forall|j: int|
            0 <= j < r.len() ==> {
                &&& (#[trigger] q[j]).name@ == r[j].name@
                &&& opt_param_same(r[j].input, q[j].input)
                &&& opt_param_same(r[j].output, q[j].output)
            },
    ensures
        rpc_changes(sn, r, q) == Seq::<ViolationView>::empty(),
{
    let e = Seq::<ViolationView>::empty();
    lemma_keys_same(r, q, rpc_key());
    assert forall|k: int| 0 <= k < r.len() implies removed_rpc_at(sn, r, q, k) == e && added_rpc_at(sn, r, q, k) == e && changed_rpc_at(sn, r, q, k) == e by {
        lemma_own_key(r, rpc_key(), k);
        assert(q[k].name@ == r[k].name@);
        assert(has_key(r, rpc_key(), q[k].name@));
        lemma_param_same(r[k].input, q[k].input);
        lemma_param_same(r[k].output, q[k].output);
        assert(rpc_diffs(dotted(sn, r[k].name@), r[k], q[k]) =~= e);
    }
    lemma_gather_empty(r.len() as int, |k: int| removed_rpc_at(sn, r, q, k));
    lemma_gather_empty(q.len() as int, |k: int| added_rpc_at(sn, r, q, k));
    lemma_gather_empty(r.len() as int, |k: int| changed_rpc_at(sn, r, q, k));
    assert(rpc_changes(sn, r, q) =~= e);
}

proof fn lemma_services_same(o: Seq<Service>, w: Seq<Service>)
    requires
        w.len() == o.len(),
        forall|j: int| 0 <= j < o.len() ==> service_same(o[j], #[trigger] w[j]),
    ensures
        service_changes(o, w) == Seq::<ViolationView>::empty(),
{
    let e = Seq::<ViolationView>::empty();
    lemma_keys_same(o, w, service_key());
    assert forall|k: int| 0 <= k < o.len() implies removed_service_at(o, w, k) == e && changed_service_at(o, w, k) == e by {
        lemma_own_key(o, service_key(), k);
        assert(service_same(o[k], w[k]));
        lemma_rpcs_same(o[k].full_name@, o[k].rpcs@, w[k].rpcs@);
    }
    lemma_gather_empty(o.len() as int, |k: int| removed_service_at(o, w, k));
    lemma_gather_empty(o.len() as int, |k: int| changed_service_at(o, w, k));
    assert(service_changes(o, w) =~= e);
}

/// Comparing a module with a copy of it (such as its clone) reports no
/// violation.
pub proof fn lemma_compare_copy(m: Module, c: Module)
    requires
        module_same(m, c),
    ensures
        changes(m, c) == Seq::<ViolationView>::empty(),
{
    lemma_types_same(m.types@, c.types@);
    lemma_enums_same(m.enums@, c.enums@);
    lemma_services_same(m.services@, c.services@);
    assert(changes(m, c) =~= Seq::<ViolationView>::empty());
}

/// The report of a change of `is_repeated` between two versions `a` and `b`
/// of field number `a.number` of type `tn`.
pub open spec fn repeated_change(tn: Seq<char>, a: Field, b: Field) -> ViolationView {
    (
        Level::Error,
        "B014"@,
        "field repeated changed: "@ + dotted(tn, b.name@) + number_note(a.number as int) + ": "@ + bool_text(
            a.is_repeated,
        ) + " → "@ + bool_text(b.is_repeated),
        dotted(tn, b.name@),
    )
}

/// Two versions of a field with one number: a B014 error is among their
/// changes exactly when one is repeated and the other is not, in either
/// direction, and it is the report of that change.
pub proof fn lemma_repeated_changes(tn: Seq<char>, a: Field, b: Field)
    ensures
        a.is_repeated != b.is_repeated ==> same_number_changes(tn, a, b).contains(repeated_change(tn, a, b)),
        a.is_repeated == b.is_repeated ==> forall|j: int|
            0 <= j < same_number_changes(tn, a, b).len() ==> (#[trigger] same_number_changes(tn, a, b)[j]).1
                != "B014"@,
{
    reveal_strlit("B012");
    reveal_strlit("B013");
    reveal_strlit("B014");
    reveal_strlit("B015");
    let sn = same_number_changes(tn, a, b);
    if a.is_repeated != b.is_repeated {
        let k: int = (if a.name@ != b.name@ {
            1int
        } else {
            0int
        }) + (if wire_text(a.type_ref) != wire_text(b.type_ref) {
            1int
        } else {
            0int
        });
        assert(sn[k] == repeated_change(tn, a, b));
    } else {
        assert("B012"@[3] != "B014"@[3]);
        assert("B013"@[3] != "B014"@[3]);
        assert("B015"@[3] != "B014"@[3]);
        assert forall|j: int| 0 <= j < sn.len() implies (#[trigger] sn[j]).1 != "B014"@ by {
            assert(sn[j].1 == "B012"@ || sn[j].1 == "B013"@ || sn[j].1 == "B015"@);
        }
    }
}

proof fn lemma_has_left(s: Seq<ViolationView>, t: Seq<ViolationView>, x: ViolationView)
    requires
        s.contains(x),
    ensures
        (s + t).contains(x),
{
    let j = choose|j: int| 0 <= j < s.len() && s[j] == x;
    assert((s + t)[j] == x);
}

proof fn lemma_has_right(s: Seq<ViolationView>, t: Seq<ViolationView>, x: ViolationView)
    requires
        t.contains(x),
    ensures
        (s + t).contains(x),
{
    let j = choose|j: int| 0 <= j < t.len() && t[j] == x;
    assert((s + t)[s.len() + j] == x);
}

proof fn lemma_gather_has(n: int, f: spec_fn(int) -> Seq<ViolationView>, k: int, x: ViolationView)
    requires
        0 <= k < n,
        f(k).contains(x),
    ensures
        gather(n, f).contains(x),
    decreases n,
{
    if k == n - 1 {
        lemma_has_right(gather(n - 1, f), f(n - 1), x);
    } else {
        lemma_gather_has(n - 1, f, k, x);
        lemma_has_left(gather(n - 1, f), f(n - 1), x);
    }
}

/// Comparing two modules reports the change of `is_repeated` of a field
/// that keeps its number, in either direction: for type `i` of the old
/// module, matched by full name with type `j` of the new one, and its field
/// `k`, matched by number with field `m` of the new type.
pub proof fn lemma_repeated_change_reported(old: Module, new: Module, i: int, j: int, k: int, m: int)
    requires
        kept_at(old.types@, type_key(), i),
        has_key(new.types@, type_key(), old.types@[i].full_name@),
        j == last_with(new.types@, type_key(), old.types@[i].full_name@),
        kept_at(old.types@[i].fields@, field_num(), k),
        has_key(new.types@[j].fields@, field_num(), old.types@[i].fields@[k].number),
        m == last_with(new.types@[j].fields@, field_num(), old.types@[i].fields@[k].number),
        old.types@[i].fields@[k].is_repeated != new.types@[j].fields@[m].is_repeated,
    ensures
        changes(old, new).contains(
            repeated_change(old.types@[i].full_name@, old.types@[i].fields@[k], new.types@[j].fields@[m]),
        ),
{
    let o = old.types@;
    let w = new.types@;
    let tn = o[i].full_name@;
    let of = o[i].fields@;
    let nf = w[j].fields@;
    let x = repeated_change(tn, of[k], nf[m]);
    lemma_repeated_changes(tn, of[k], nf[m]);
    assert(kept_number_at(tn, of, nf, k) == same_number_changes(tn, of[k], nf[m]));
    lemma_gather_has(of.len() as int, |q: int| kept_number_at(tn, of, nf, q), k, x);
    assert(kept_numbers(tn, of, nf).contains(x));
    lemma_has_right(removed_fields(tn, of, nf) + added_fields(tn, of, nf), kept_numbers(tn, of, nf), x);
    lemma_has_left(
        removed_fields(tn, of, nf) + added_fields(tn, of, nf) + kept_numbers(tn, of, nf),
        renumbered(tn, of, nf),
        x,
    );
    assert(field_changes(tn, of, nf).contains(x));
    lemma_has_left(field_changes(tn, of, nf), oneof_changes(tn, o[i].oneofs@, w[j].oneofs@), x);
    assert(changed_type_at(o, w, i).contains(x));
    lemma_gather_has(o.len() as int, |q: int| changed_type_at(o, w, q), i, x);
    assert(changed_types(o, w).contains(x));
    lemma_has_right(removed_types(o, w) + added_types(o, w), changed_types(o, w), x);
    assert(type_changes(o, w).contains(x));
    lemma_has_left(type_changes(o, w), enum_changes(old.enums@, new.enums@), x);
    lemma_has_left(
        type_changes(o, w) + enum_changes(old.enums@, new.enums@),
        service_changes(old.services@, new.services@),
        x,
    );
}

} // verus!
