use vstd::prelude::*;
use crate::slot::{Id, Slot};
use crate::slotmap::SlotMap;
use crate::lang::{AppliedId, AppliedIdView, applied_slots};

verus! {

/// An e-node of the RISE language.
#[derive(PartialEq, Eq, Hash, PartialOrd, Ord, Debug)]
pub enum RiseENode {
    Lam(Slot, AppliedId),
    App(AppliedId, AppliedId),
    Var(Slot),
    Let(Slot, AppliedId, AppliedId),
    Number(u32),
    Symbol(String),
    Add(AppliedId, AppliedId),
}

/// A pattern node: an e-node, or a pattern variable such as `?b`.
#[derive(PartialEq, Eq, Hash, PartialOrd, Ord, Debug)]
pub enum ENodeOrPVar {
    ENode(RiseENode),
    PVar(String),
}

/// A pattern: a node and its child patterns, one for each applied id of the node.
#[derive(PartialEq, Eq, Hash, PartialOrd, Ord, Debug)]
pub struct Pattern {
    pub node: ENodeOrPVar,
    pub children: Vec<Pattern>,
}

/// A term of the RISE language, with pattern variables, as a mathematical tree.
pub ghost enum RiseTerm {
    PVar(Seq<char>),
    Var(Slot),
    Lam(Slot, Box<RiseTerm>),
    App(Box<RiseTerm>, Box<RiseTerm>),
    Let(Slot, Box<RiseTerm>, Box<RiseTerm>),
    Add(Box<RiseTerm>, Box<RiseTerm>),
    Symb(Seq<char>),
    Num(u32),
}

pub open spec fn t_pvar(s: Seq<char>) -> RiseTerm {
    RiseTerm::PVar(s)
}

pub open spec fn t_var(x: Slot) -> RiseTerm {
    RiseTerm::Var(x)
}

pub open spec fn t_lam(x: Slot, b: RiseTerm) -> RiseTerm {
    RiseTerm::Lam(x, Box::new(b))
}

pub open spec fn t_app(l: RiseTerm, r: RiseTerm) -> RiseTerm {
    RiseTerm::App(Box::new(l), Box::new(r))
}

pub open spec fn t_let(x: Slot, e: RiseTerm, b: RiseTerm) -> RiseTerm {
    RiseTerm::Let(x, Box::new(e), Box::new(b))
}

pub open spec fn t_add(l: RiseTerm, r: RiseTerm) -> RiseTerm {
    RiseTerm::Add(Box::new(l), Box::new(r))
}

pub open spec fn t_symb(s: Seq<char>) -> RiseTerm {
    RiseTerm::Symb(s)
}

pub open spec fn t_num(n: u32) -> RiseTerm {
    RiseTerm::Num(n)
}

/// The applied id that pattern and expression nodes carry in place of their children.
pub open spec fn is_placeholder(a: AppliedIdView) -> bool {
    a == (Id(0), Seq::<(Slot, Slot)>::empty())
}

/// The node of a pattern or expression, and its number of children, fit the top of `t`.
pub open spec fn node_fits(n: RiseENode, k: nat, t: RiseTerm) -> bool {
    match t {
        RiseTerm::PVar(_) => false,
        RiseTerm::Var(x) => n == RiseENode::Var(x) && k == 0,
        RiseTerm::Lam(x, _) => n matches RiseENode::Lam(y, a) && y == x && is_placeholder(a@) && k == 1,
        RiseTerm::App(_, _) => n matches RiseENode::App(a, b) && is_placeholder(a@) && is_placeholder(b@)
            && k == 2,
        RiseTerm::Let(x, _, _) => n matches RiseENode::Let(y, a, b) && y == x && is_placeholder(a@)
            && is_placeholder(b@) && k == 2,
        RiseTerm::Add(_, _) => n matches RiseENode::Add(a, b) && is_placeholder(a@) && is_placeholder(b@)
            && k == 2,
        RiseTerm::Symb(s) => n matches RiseENode::Symbol(v) && v@ == s && k == 0,
        RiseTerm::Num(m) => n == RiseENode::Number(m) && k == 0,
    }
}

/// The pattern `p` is the term `t`.
pub open spec fn pattern_is(p: Pattern, t: RiseTerm) -> bool
    decreases t,
{
    match t {
        RiseTerm::PVar(s) => p.node matches ENodeOrPVar::PVar(v) && v@ == s && p.children@.len() == 0,
        RiseTerm::Lam(_, b) => {
            &&& p.node matches ENodeOrPVar::ENode(n) && node_fits(n, p.children@.len(), t)
            &&& pattern_is(p.children@[0], *b)
        },
        RiseTerm::App(l, r) => {
            &&& p.node matches ENodeOrPVar::ENode(n) && node_fits(n, p.children@.len(), t)
            &&& pattern_is(p.children@[0], *l)
            &&& pattern_is(p.children@[1], *r)
        },
        RiseTerm::Let(_, e, b) => {
            &&& p.node matches ENodeOrPVar::ENode(n) && node_fits(n, p.children@.len(), t)
            &&& pattern_is(p.children@[0], *e)
            &&& pattern_is(p.children@[1], *b)
        },
        RiseTerm::Add(l, r) => {
            &&& p.node matches ENodeOrPVar::ENode(n) && node_fits(n, p.children@.len(), t)
            &&& pattern_is(p.children@[0], *l)
            &&& pattern_is(p.children@[1], *r)
        },
        _ => p.node matches ENodeOrPVar::ENode(n) && node_fits(n, p.children@.len(), t),
    }
}

/// The applied id of e-class 0 with no slots: the placeholder that pattern nodes carry.
pub fn empty_app_id() -> (a: AppliedId)
    ensures
        is_placeholder(a@),
{
    AppliedId::new(Id(0), SlotMap::new())
}

/// The pattern variable named `s`.
pub fn pvar_pat(s: &str) -> (p: Pattern)
    ensures
        pattern_is(p, t_pvar(s@)),
{
    Pattern { node: ENodeOrPVar::PVar(s.to_owned()), children: Vec::new() }
}

/// The application of `l` to `r`.
pub fn app_pat(l: Pattern, r: Pattern) -> (p: Pattern)
    ensures
        p.node matches ENodeOrPVar::ENode(n) && node_fits(n, 2, t_app(t_pvar(Seq::empty()), t_pvar(Seq::empty()))),
        p.children@ == seq![l, r],
        forall|tl: RiseTerm, tr: RiseTerm|
            pattern_is(l, tl) && pattern_is(r, tr) ==> #[trigger] pattern_is(p, t_app(tl, tr)),
{
    let mut children: Vec<Pattern> = Vec::new();
    children.push(l);
    children.push(r);
    Pattern { node: ENodeOrPVar::ENode(RiseENode::App(empty_app_id(), empty_app_id())), children }
}

/// The variable `s`.
pub fn var_pat(s: Slot) -> (p: Pattern)
    ensures
        pattern_is(p, t_var(s)),
{
    Pattern { node: ENodeOrPVar::ENode(RiseENode::Var(s)), children: Vec::new() }
}

/// The abstraction of `b` over `s`.
pub fn lam_pat(s: Slot, b: Pattern) -> (p: Pattern)
    ensures
        p.node matches ENodeOrPVar::ENode(n) && node_fits(n, 1, t_lam(s, t_pvar(Seq::empty()))),
        p.children@ == seq![b],
        forall|tb: RiseTerm| pattern_is(b, tb) ==> #[trigger] pattern_is(p, t_lam(s, tb)),
{
    let mut children: Vec<Pattern> = Vec::new();
    children.push(b);
    Pattern { node: ENodeOrPVar::ENode(RiseENode::Lam(s, empty_app_id())), children }
}

/// `let s = t in b`.
pub fn let_pat(s: Slot, t: Pattern, b: Pattern) -> (p: Pattern)
    ensures
        p.node matches ENodeOrPVar::ENode(n) && node_fits(
            n,
            2,
            t_let(s, t_pvar(Seq::empty()), t_pvar(Seq::empty())),
        ),
        p.children@ == seq![t, b],
        forall|tt: RiseTerm, tb: RiseTerm|
            pattern_is(t, tt) && pattern_is(b, tb) ==> #[trigger] pattern_is(p, t_let(s, tt, tb)),
{
    let mut children: Vec<Pattern> = Vec::new();
    children.push(t);
    children.push(b);
    Pattern {
        node: ENodeOrPVar::ENode(RiseENode::Let(s, empty_app_id(), empty_app_id())),
        children,
    }
}

/// The sum of `l` and `r`.
pub fn add_pat(l: Pattern, r: Pattern) -> (p: Pattern)
    ensures
        p.node matches ENodeOrPVar::ENode(n) && node_fits(n, 2, t_add(t_pvar(Seq::empty()), t_pvar(Seq::empty()))),
        p.children@ == seq![l, r],
        forall|tl: RiseTerm, tr: RiseTerm|
            pattern_is(l, tl) && pattern_is(r, tr) ==> #[trigger] pattern_is(p, t_add(tl, tr)),
{
    let mut children: Vec<Pattern> = Vec::new();
    children.push(l);
    children.push(r);
    Pattern { node: ENodeOrPVar::ENode(RiseENode::Add(empty_app_id(), empty_app_id())), children }
}

/// The symbol named `s`.
pub fn symb_pat(s: &str) -> (p: Pattern)
    ensures
        pattern_is(p, t_symb(s@)),
{
    Pattern { node: ENodeOrPVar::ENode(RiseENode::Symbol(s.to_owned())), children: Vec::new() }
}


/// What the pattern variables of a match stand for: a list of bindings, of which the
/// latest for a name counts.
pub struct Subst {
    entries: Vec<(String, AppliedId)>,
}

/// The applied id that the latest binding of `name` gives, if any.
pub open spec fn subst_lookup(s: Seq<(Seq<char>, AppliedIdView)>, name: Seq<char>) -> Option<AppliedIdView>
    decreases s.len(),
{
    if s.len() == 0 {
        None
    } else if s.last().0 == name {
        Some(s.last().1)
    } else {
        subst_lookup(s.drop_last(), name)
    }
}

impl View for Subst {
    type V = Seq<(Seq<char>, AppliedIdView)>;

    closed spec fn view(&self) -> Seq<(Seq<char>, AppliedIdView)> {
        self.entries@.map_values(|e: (String, AppliedId)| (e.0@, e.1@))
    }
}

impl Subst {
    /// No bindings.
    pub fn new() -> (s: Subst)
        ensures
            s@ == Seq::<(Seq<char>, AppliedIdView)>::empty(),
    {
        let s = Subst { entries: Vec::new() };
        assert(s@ =~= Seq::<(Seq<char>, AppliedIdView)>::empty());
        s
    }

    /// Binds `name` to `a`, over any earlier binding of it.
    pub fn insert(&mut self, name: &str, a: AppliedId)
        ensures
            final(self)@ == old(self)@.push((name@, a@)),
    {
        self.entries.push((name.to_owned(), a));
        assert(self@ =~= old(self)@.push((name@, a@)));
    }

    /// What `name` is bound to, if it is bound.
    pub fn get(&self, name: &String) -> (r: Option<&AppliedId>)
        ensures
            r is Some <==> subst_lookup(self@, name@) is Some,
            r matches Some(a) ==> subst_lookup(self@, name@) == Some(a@),
    {
        let mut i: usize = self.entries.len();
        assert(self@.take(i as int) =~= self@);
        while i > 0
            invariant
                0 <= i <= self.entries@.len(),
                subst_lookup(self@, name@) == subst_lookup(self@.take(i as int), name@),
            decreases i,
        {
            let ghost t = self@.take(i as int);
            assert(t.last() == (self.entries@[i - 1].0@, self.entries@[i - 1].1@));
            if self.entries[i - 1].0 == *name {
                return Some(&self.entries[i - 1].1);
            }
            assert(t.drop_last() =~= self@.take(i - 1));
            i = i - 1;
        }
        None
    }
}

/// The view of a rewrite condition.
pub ghost enum ConditionSpec {
    Always,
    SlotNotFreeIn(Seq<char>, Slot),
    SlotFreeIn(Seq<char>, Slot),
    SlotFreeInEither(Seq<char>, Seq<char>, Slot),
}

/// When a match may be rewritten, in terms of the slots that pattern variables expose.
#[derive(PartialEq, Eq, Hash, Debug)]
pub enum Condition {
    Always,
    /// The slot is not among the slots of what the variable stands for.
    SlotNotFreeIn(String, Slot),
    /// The slot is among the slots of what the variable stands for.
    SlotFreeIn(String, Slot),
    /// The slot is among the slots of what one of the two variables stands for.
    SlotFreeInEither(String, String, Slot),
}

impl View for Condition {
    type V = ConditionSpec;

    open spec fn view(&self) -> ConditionSpec {
        match self {
            Condition::Always => ConditionSpec::Always,
            Condition::SlotNotFreeIn(v, x) => ConditionSpec::SlotNotFreeIn(v@, *x),
            Condition::SlotFreeIn(v, x) => ConditionSpec::SlotFreeIn(v@, *x),
            Condition::SlotFreeInEither(v, w, x) => ConditionSpec::SlotFreeInEither(v@, w@, *x),
        }
    }
}

/// The slot `x` is exposed by what `v` stands for in `s`.
pub open spec fn free_in(s: Seq<(Seq<char>, AppliedIdView)>, v: Seq<char>, x: Slot) -> bool {
    applied_slots(subst_lookup(s, v).unwrap()).contains(x)
}

/// The pattern variables that a condition reads are bound in `s`.
pub open spec fn condition_bound(c: ConditionSpec, s: Seq<(Seq<char>, AppliedIdView)>) -> bool {
    match c {
        ConditionSpec::Always => true,
        ConditionSpec::SlotNotFreeIn(v, _) => subst_lookup(s, v) is Some,
        ConditionSpec::SlotFreeIn(v, _) => subst_lookup(s, v) is Some,
        ConditionSpec::SlotFreeInEither(v, w, _) => subst_lookup(s, v) is Some && subst_lookup(s, w) is Some,
    }
}

/// Whether the condition holds of the match `s`.
pub open spec fn condition_holds(c: ConditionSpec, s: Seq<(Seq<char>, AppliedIdView)>) -> bool {
    match c {
        ConditionSpec::Always => true,
        ConditionSpec::SlotNotFreeIn(v, x) => !free_in(s, v, x),
        ConditionSpec::SlotFreeIn(v, x) => free_in(s, v, x),
        ConditionSpec::SlotFreeInEither(v, w, x) => free_in(s, v, x) || free_in(s, w, x),
    }
}

/// Whether `x` is exposed by what `v` stands for.
fn slot_free_in(subst: &Subst, v: &String, x: Slot) -> (b: bool)
    requires
        subst_lookup(subst@, v@) is Some,
    ensures
        b == free_in(subst@, v@, x),
{
    match subst.get(v) {
        Some(a) => a.slots().contains(x),
        None => false,
    }
}

impl Condition {
    /// Whether the condition holds of the match `subst`, which binds the variables it
    /// reads.
    pub fn holds(&self, subst: &Subst) -> (b: bool)
        requires
            condition_bound(self@, subst@),
        ensures
            b == condition_holds(self@, subst@),
    {
        match self {
            Condition::Always => true,
            Condition::SlotNotFreeIn(v, x) => !slot_free_in(subst, v, *x),
            Condition::SlotFreeIn(v, x) => slot_free_in(subst, v, *x),
            Condition::SlotFreeInEither(v, w, x) => slot_free_in(subst, v, *x) || slot_free_in(
                subst,
                w,
                *x,
            ),
        }
    }
}

/// A rewrite rule: what it searches for, what it puts in its place, and when.
pub struct Rewrite {
    pub searcher: Pattern,
    pub applier: Pattern,
    pub condition: Condition,
}

/// The rule `r` rewrites `searcher` to `applier` where `cond` holds.
pub open spec fn rule_is(r: Rewrite, searcher: RiseTerm, applier: RiseTerm, cond: ConditionSpec) -> bool {
    &&& pattern_is(r.searcher, searcher)
    &&& pattern_is(r.applier, applier)
    &&& r.condition@ == cond
}


/// `(\s1. ?b) ?t` becomes `let s1 ?t ?b`.
pub open spec fn beta_spec() -> (RiseTerm, RiseTerm, ConditionSpec) {
    (
        t_app(t_lam(Slot(1), t_pvar("?b"@)), t_pvar("?t"@)),
        t_let(Slot(1), t_pvar("?t"@), t_pvar("?b"@)),
        ConditionSpec::Always,
    )
}

pub fn beta() -> (r: Rewrite)
    ensures
        rule_is(r, beta_spec().0, beta_spec().1, beta_spec().2),
{
    let pat = app_pat(lam_pat(Slot::new(1), pvar_pat("?b")), pvar_pat("?t"));
    let outpat = let_pat(Slot::new(1), pvar_pat("?t"), pvar_pat("?b"));
    Rewrite { searcher: pat, applier: outpat, condition: Condition::Always }
}


pub open spec fn t_map(f: RiseTerm, x: RiseTerm) -> RiseTerm {
    t_app(t_app(t_symb("map"@), f), x)
}

pub open spec fn t_map1(f: RiseTerm) -> RiseTerm {
    t_app(t_symb("map"@), f)
}

pub open spec fn t_transpose(x: RiseTerm) -> RiseTerm {
    t_app(t_symb("transpose"@), x)
}

pub open spec fn t_slide(a: RiseTerm, b: RiseTerm) -> RiseTerm {
    t_app(t_app(t_symb("slide"@), a), b)
}

/// `map a b`.
fn map_pat(a: Pattern, b: Pattern) -> (p: Pattern)
    ensures
        forall|ta: RiseTerm, tb: RiseTerm|
            pattern_is(a, ta) && pattern_is(b, tb) ==> #[trigger] pattern_is(p, t_map(ta, tb)),
{
    app_pat(app_pat(symb_pat("map"), a), b)
}

/// `map a`.
fn map1_pat(a: Pattern) -> (p: Pattern)
    ensures
        forall|ta: RiseTerm| pattern_is(a, ta) ==> #[trigger] pattern_is(p, t_map1(ta)),
{
    app_pat(symb_pat("map"), a)
}

/// `transpose x`.
fn transpose_pat(x: Pattern) -> (p: Pattern)
    ensures
        forall|tx: RiseTerm| pattern_is(x, tx) ==> #[trigger] pattern_is(p, t_transpose(tx)),
{
    app_pat(symb_pat("transpose"), x)
}

/// `slide a b`.
fn slide_pat(a: Pattern, b: Pattern) -> (p: Pattern)
    ensures
        forall|ta: RiseTerm, tb: RiseTerm|
            pattern_is(a, ta) && pattern_is(b, tb) ==> #[trigger] pattern_is(p, t_slide(ta, tb)),
{
    app_pat(app_pat(symb_pat("slide"), a), b)
}

/// `\s1. ?b s1` becomes `?b`, where `?b` does not expose `s1`.
pub open spec fn eta_spec() -> (RiseTerm, RiseTerm, ConditionSpec) {
    (
        t_lam(Slot(1), t_app(t_pvar("?b"@), t_var(Slot(1)))),
        t_pvar("?b"@),
        ConditionSpec::SlotNotFreeIn("?b"@, Slot(1)),
    )
}

pub fn eta() -> (r: Rewrite)
    ensures
        rule_is(r, eta_spec().0, eta_spec().1, eta_spec().2),
{
    let pat = lam_pat(Slot::new(1), app_pat(pvar_pat("?b"), var_pat(Slot::new(1))));
    let outpat = pvar_pat("?b");
    Rewrite {
        searcher: pat,
        applier: outpat,
        condition: Condition::SlotNotFreeIn("?b".to_owned(), Slot::new(1)),
    }
}

/// `?b` becomes `\s1. ?b s1`.
pub open spec fn eta_expansion_spec() -> (RiseTerm, RiseTerm, ConditionSpec) {
    (
        t_pvar("?b"@),
        t_lam(Slot(1), t_app(t_pvar("?b"@), t_var(Slot(1)))),
        ConditionSpec::Always,
    )
}

pub fn eta_expansion() -> (r: Rewrite)
    ensures
        rule_is(r, eta_expansion_spec().0, eta_expansion_spec().1, eta_expansion_spec().2),
{
    let pat = pvar_pat("?b");
    let outpat = lam_pat(Slot::new(1), app_pat(pvar_pat("?b"), var_pat(Slot::new(1))));
    Rewrite { searcher: pat, applier: outpat, condition: Condition::Always }
}

/// `let s1 ?t ?b` becomes `?b`, where `?b` does not expose `s1`.
pub open spec fn my_let_unused_spec() -> (RiseTerm, RiseTerm, ConditionSpec) {
    (
        t_let(Slot(1), t_pvar("?t"@), t_pvar("?b"@)),
        t_pvar("?b"@),
        ConditionSpec::SlotNotFreeIn("?b"@, Slot(1)),
    )
}

pub fn my_let_unused() -> (r: Rewrite)
    ensures
        rule_is(r, my_let_unused_spec().0, my_let_unused_spec().1, my_let_unused_spec().2),
{
    let pat = let_pat(Slot::new(1), pvar_pat("?t"), pvar_pat("?b"));
    let outpat = pvar_pat("?b");
    Rewrite {
        searcher: pat,
        applier: outpat,
        condition: Condition::SlotNotFreeIn("?b".to_owned(), Slot::new(1)),
    }
}

/// `let s1 ?e s1` becomes `?e`.
pub open spec fn let_var_same_spec() -> (RiseTerm, RiseTerm, ConditionSpec) {
    (t_let(Slot(1), t_pvar("?e"@), t_var(Slot(1))), t_pvar("?e"@), ConditionSpec::Always)
}

pub fn let_var_same() -> (r: Rewrite)
    ensures
        rule_is(r, let_var_same_spec().0, let_var_same_spec().1, let_var_same_spec().2),
{
    let pat = let_pat(Slot::new(1), pvar_pat("?e"), var_pat(Slot::new(1)));
    let outpat = pvar_pat("?e");
    Rewrite { searcher: pat, applier: outpat, condition: Condition::Always }
}

/// `let s1 ?e (?a ?b)` becomes `(let s1 ?e ?a) (let s1 ?e ?b)`, where `?a` or `?b`
/// exposes `s1`.
pub open spec fn let_app_spec() -> (RiseTerm, RiseTerm, ConditionSpec) {
    (
        t_let(Slot(1), t_pvar("?e"@), t_app(t_pvar("?a"@), t_pvar("?b"@))),
        t_app(
            t_let(Slot(1), t_pvar("?e"@), t_pvar("?a"@)),
            t_let(Slot(1), t_pvar("?e"@), t_pvar("?b"@)),
        ),
        ConditionSpec::SlotFreeInEither("?a"@, "?b"@, Slot(1)),
    )
}

pub fn let_app() -> (r: Rewrite)
    ensures
        rule_is(r, let_app_spec().0, let_app_spec().1, let_app_spec().2),
{
    let pat = let_pat(Slot::new(1), pvar_pat("?e"), app_pat(pvar_pat("?a"), pvar_pat("?b")));
    let outpat = app_pat(
        let_pat(Slot::new(1), pvar_pat("?e"), pvar_pat("?a")),
        let_pat(Slot::new(1), pvar_pat("?e"), pvar_pat("?b")),
    );
    Rewrite {
        searcher: pat,
        applier: outpat,
        condition: Condition::SlotFreeInEither("?a".to_owned(), "?b".to_owned(), Slot::new(1)),
    }
}

/// `let s1 ?e (\s2. ?b)` becomes `\s2. let s1 ?e ?b`, where `?b` exposes `s1`.
pub open spec fn let_lam_diff_spec() -> (RiseTerm, RiseTerm, ConditionSpec) {
    (
        t_let(Slot(1), t_pvar("?e"@), t_lam(Slot(2), t_pvar("?b"@))),
        t_lam(Slot(2), t_let(Slot(1), t_pvar("?e"@), t_pvar("?b"@))),
        ConditionSpec::SlotFreeIn("?b"@, Slot(1)),
    )
}

pub fn let_lam_diff() -> (r: Rewrite)
    ensures
        rule_is(r, let_lam_diff_spec().0, let_lam_diff_spec().1, let_lam_diff_spec().2),
{
    let pat = let_pat(Slot::new(1), pvar_pat("?e"), lam_pat(Slot::new(2), pvar_pat("?b")));
    let outpat = lam_pat(Slot::new(2), let_pat(Slot::new(1), pvar_pat("?e"), pvar_pat("?b")));
    Rewrite {
        searcher: pat,
        applier: outpat,
        condition: Condition::SlotFreeIn("?b".to_owned(), Slot::new(1)),
    }
}

/// `let s1 ?e (?a + ?b)` becomes `(let s1 ?e ?a) + (let s1 ?e ?b)`, where `?a` or `?b`
/// exposes `s1`.
pub open spec fn let_add_spec() -> (RiseTerm, RiseTerm, ConditionSpec) {
    (
        t_let(Slot(1), t_pvar("?e"@), t_add(t_pvar("?a"@), t_pvar("?b"@))),
        t_add(
            t_let(Slot(1), t_pvar("?e"@), t_pvar("?a"@)),
            t_let(Slot(1), t_pvar("?e"@), t_pvar("?b"@)),
        ),
        ConditionSpec::SlotFreeInEither("?a"@, "?b"@, Slot(1)),
    )
}

pub fn let_add() -> (r: Rewrite)
    ensures
        rule_is(r, let_add_spec().0, let_add_spec().1, let_add_spec().2),
{
    let pat = let_pat(Slot::new(1), pvar_pat("?e"), add_pat(pvar_pat("?a"), pvar_pat("?b")));
    let outpat = add_pat(
        let_pat(Slot::new(1), pvar_pat("?e"), pvar_pat("?a")),
        let_pat(Slot::new(1), pvar_pat("?e"), pvar_pat("?b")),
    );
    Rewrite {
        searcher: pat,
        applier: outpat,
        condition: Condition::SlotFreeInEither("?a".to_owned(), "?b".to_owned(), Slot::new(1)),
    }
}

/// `map ?f (map ?g ?arg)` becomes `map (\s0. ?f (?g s0)) ?arg`.
pub open spec fn map_fusion_spec() -> (RiseTerm, RiseTerm, ConditionSpec) {
    (
        t_map(t_pvar("?f"@), t_map(t_pvar("?g"@), t_pvar("?arg"@))),
        t_map(
            t_lam(Slot(0), t_app(t_pvar("?f"@), t_app(t_pvar("?g"@), t_var(Slot(0))))),
            t_pvar("?arg"@),
        ),
        ConditionSpec::Always,
    )
}

pub fn map_fusion() -> (r: Rewrite)
    ensures
        rule_is(r, map_fusion_spec().0, map_fusion_spec().1, map_fusion_spec().2),
{
    let x = Slot::new(0);
    let pat = map_pat(pvar_pat("?f"), map_pat(pvar_pat("?g"), pvar_pat("?arg")));
    let outpat = map_pat(
        lam_pat(x, app_pat(pvar_pat("?f"), app_pat(pvar_pat("?g"), var_pat(x)))),
        pvar_pat("?arg"),
    );
    Rewrite { searcher: pat, applier: outpat, condition: Condition::Always }
}

/// `map (\s0. ?f ?gx)` becomes `\s1. map ?f (map (\s0. ?gx) s1)`, where `?f` does not
/// expose `s0`.
pub open spec fn map_fission_spec() -> (RiseTerm, RiseTerm, ConditionSpec) {
    (
        t_map1(t_lam(Slot(0), t_app(t_pvar("?f"@), t_pvar("?gx"@)))),
        t_lam(
            Slot(1),
            t_map(t_pvar("?f"@), t_map(t_lam(Slot(0), t_pvar("?gx"@)), t_var(Slot(1)))),
        ),
        ConditionSpec::SlotNotFreeIn("?f"@, Slot(0)),
    )
}

pub fn map_fission() -> (r: Rewrite)
    ensures
        rule_is(r, map_fission_spec().0, map_fission_spec().1, map_fission_spec().2),
{
    let x = Slot::new(0);
    let y = Slot::new(1);
    let pat = map1_pat(lam_pat(x, app_pat(pvar_pat("?f"), pvar_pat("?gx"))));
    let outpat = lam_pat(
        y,
        map_pat(pvar_pat("?f"), map_pat(lam_pat(x, pvar_pat("?gx")), var_pat(y))),
    );
    Rewrite {
        searcher: pat,
        applier: outpat,
        condition: Condition::SlotNotFreeIn("?f".to_owned(), x),
    }
}

/// `transpose (transpose ?x)` becomes `?x`.
pub open spec fn remove_transpose_pair_spec() -> (RiseTerm, RiseTerm, ConditionSpec) {
    (t_transpose(t_transpose(t_pvar("?x"@))), t_pvar("?x"@), ConditionSpec::Always)
}

pub fn remove_transpose_pair() -> (r: Rewrite)
    ensures
        rule_is(
            r,
            remove_transpose_pair_spec().0,
            remove_transpose_pair_spec().1,
            remove_transpose_pair_spec().2,
        ),
{
    let pat = transpose_pat(transpose_pat(pvar_pat("?x")));
    let outpat = pvar_pat("?x");
    Rewrite { searcher: pat, applier: outpat, condition: Condition::Always }
}

/// `(slide ?sz ?sp) (map ?f ?y)` becomes `(map (map ?f)) ((slide ?sz ?sp) ?y)`.
pub open spec fn slide_before_map_spec() -> (RiseTerm, RiseTerm, ConditionSpec) {
    (
        t_app(t_slide(t_pvar("?sz"@), t_pvar("?sp"@)), t_map(t_pvar("?f"@), t_pvar("?y"@))),
        t_app(
            t_map1(t_map1(t_pvar("?f"@))),
            t_app(t_slide(t_pvar("?sz"@), t_pvar("?sp"@)), t_pvar("?y"@)),
        ),
        ConditionSpec::Always,
    )
}

pub fn slide_before_map() -> (r: Rewrite)
    ensures
        rule_is(r, slide_before_map_spec().0, slide_before_map_spec().1, slide_before_map_spec().2),
{
    let pat = app_pat(
        slide_pat(pvar_pat("?sz"), pvar_pat("?sp")),
        map_pat(pvar_pat("?f"), pvar_pat("?y")),
    );
    let outpat = app_pat(
        map1_pat(map1_pat(pvar_pat("?f"))),
        app_pat(slide_pat(pvar_pat("?sz"), pvar_pat("?sp")), pvar_pat("?y")),
    );
    Rewrite { searcher: pat, applier: outpat, condition: Condition::Always }
}

/// `transpose (map (slide ?sz ?sp) ?y)` becomes `map transpose ((slide ?sz ?sp)
/// (transpose ?y))`.
pub open spec fn map_slide_before_transpose_spec() -> (RiseTerm, RiseTerm, ConditionSpec) {
    (
        t_transpose(t_map(t_slide(t_pvar("?sz"@), t_pvar("?sp"@)), t_pvar("?y"@))),
        t_map(
            t_symb("transpose"@),
            t_app(t_slide(t_pvar("?sz"@), t_pvar("?sp"@)), t_transpose(t_pvar("?y"@))),
        ),
        ConditionSpec::Always,
    )
}

pub fn map_slide_before_transpose() -> (r: Rewrite)
    ensures
        rule_is(
            r,
            map_slide_before_transpose_spec().0,
            map_slide_before_transpose_spec().1,
            map_slide_before_transpose_spec().2,
        ),
{
    let pat = transpose_pat(map_pat(slide_pat(pvar_pat("?sz"), pvar_pat("?sp")), pvar_pat("?y")));
    let outpat = map_pat(
        symb_pat("transpose"),
        app_pat(slide_pat(pvar_pat("?sz"), pvar_pat("?sp")), transpose_pat(pvar_pat("?y"))),
    );
    Rewrite { searcher: pat, applier: outpat, condition: Condition::Always }
}


/// The rules of one step of RISE rewriting, in the order in which a step applies them:
/// beta, eta, let_unused, let_var_same, let_app, let_lam_diff, let_add, map_fusion,
/// map_fission, remove_transpose_pair, slide_before_map, map_slide_before_transpose.
pub fn rewrite_rise() -> (rules: Vec<Rewrite>)
    ensures
        rules@.len() == 12,
        rule_is(rules@[0], beta_spec().0, beta_spec().1, beta_spec().2),
        rule_is(rules@[1], eta_spec().0, eta_spec().1, eta_spec().2),
        rule_is(rules@[2], my_let_unused_spec().0, my_let_unused_spec().1, my_let_unused_spec().2),
        rule_is(rules@[3], let_var_same_spec().0, let_var_same_spec().1, let_var_same_spec().2),
        rule_is(rules@[4], let_app_spec().0, let_app_spec().1, let_app_spec().2),
        rule_is(rules@[5], let_lam_diff_spec().0, let_lam_diff_spec().1, let_lam_diff_spec().2),
        rule_is(rules@[6], let_add_spec().0, let_add_spec().1, let_add_spec().2),
        rule_is(rules@[7], map_fusion_spec().0, map_fusion_spec().1, map_fusion_spec().2),
        rule_is(rules@[8], map_fission_spec().0, map_fission_spec().1, map_fission_spec().2),
        rule_is(
            rules@[9],
            remove_transpose_pair_spec().0,
            remove_transpose_pair_spec().1,
            remove_transpose_pair_spec().2,
        ),
        rule_is(
            rules@[10],
            slide_before_map_spec().0,
            slide_before_map_spec().1,
            slide_before_map_spec().2,
        ),
        rule_is(
            rules@[11],
            map_slide_before_transpose_spec().0,
            map_slide_before_transpose_spec().1,
            map_slide_before_transpose_spec().2,
        ),
{
    let mut rules: Vec<Rewrite> = Vec::new();
    rules.push(beta());
    rules.push(eta());
    rules.push(my_let_unused());
    rules.push(let_var_same());
    rules.push(let_app());
    rules.push(let_lam_diff());
    rules.push(let_add());
    rules.push(map_fusion());
    rules.push(map_fission());
    rules.push(remove_transpose_pair());
    rules.push(slide_before_map());
    rules.push(map_slide_before_transpose());
    rules
}


/// A RISE expression: a node and its child expressions, one for each applied id of the
/// node.
#[derive(PartialEq, Eq, Hash, PartialOrd, Ord, Debug)]
pub struct RecExpr2 {
    pub node: RiseENode,
    pub children: Vec<RecExpr2>,
}

/// The expression `e` is the term `t` (which has no pattern variables).
pub open spec fn expr_is(e: RecExpr2, t: RiseTerm) -> bool
    decreases t,
{
    match t {
        RiseTerm::PVar(_) => false,
        RiseTerm::Lam(_, b) => node_fits(e.node, e.children@.len(), t) && expr_is(e.children@[0], *b),
        RiseTerm::App(l, r) => node_fits(e.node, e.children@.len(), t) && expr_is(e.children@[0], *l)
            && expr_is(e.children@[1], *r),
        RiseTerm::Let(_, a, b) => node_fits(e.node, e.children@.len(), t) && expr_is(e.children@[0], *a)
            && expr_is(e.children@[1], *b),
        RiseTerm::Add(l, r) => node_fits(e.node, e.children@.len(), t) && expr_is(e.children@[0], *l)
            && expr_is(e.children@[1], *r),
        _ => node_fits(e.node, e.children@.len(), t),
    }
}

/// The abstraction of `b` over the slot numbered `x`.
pub fn lam_re(x: usize, b: RecExpr2) -> (e: RecExpr2)
    ensures
        node_fits(e.node, 1, t_lam(Slot(x), t_pvar(Seq::empty()))),
        e.children@ == seq![b],
        forall|tb: RiseTerm| expr_is(b, tb) ==> #[trigger] expr_is(e, t_lam(Slot(x), tb)),
{
    let mut children: Vec<RecExpr2> = Vec::new();
    children.push(b);
    RecExpr2 { node: RiseENode::Lam(Slot::new(x), empty_app_id()), children }
}

/// The application of `l` to `r`.
pub fn app_re(l: RecExpr2, r: RecExpr2) -> (e: RecExpr2)
    ensures
        node_fits(e.node, 2, t_app(t_pvar(Seq::empty()), t_pvar(Seq::empty()))),
        e.children@ == seq![l, r],
        forall|tl: RiseTerm, tr: RiseTerm|
            expr_is(l, tl) && expr_is(r, tr) ==> #[trigger] expr_is(e, t_app(tl, tr)),
{
    let mut children: Vec<RecExpr2> = Vec::new();
    children.push(l);
    children.push(r);
    RecExpr2 { node: RiseENode::App(empty_app_id(), empty_app_id()), children }
}

/// The variable numbered `x`.
pub fn var_re(x: usize) -> (e: RecExpr2)
    ensures
        expr_is(e, t_var(Slot(x))),
{
    RecExpr2 { node: RiseENode::Var(Slot::new(x)), children: Vec::new() }
}

/// The sum of `l` and `r`.
pub fn add_re(l: RecExpr2, r: RecExpr2) -> (e: RecExpr2)
    ensures
        node_fits(e.node, 2, t_add(t_pvar(Seq::empty()), t_pvar(Seq::empty()))),
        e.children@ == seq![l, r],
        forall|tl: RiseTerm, tr: RiseTerm|
            expr_is(l, tl) && expr_is(r, tr) ==> #[trigger] expr_is(e, t_add(tl, tr)),
{
    let mut children: Vec<RecExpr2> = Vec::new();
    children.push(l);
    children.push(r);
    RecExpr2 { node: RiseENode::Add(empty_app_id(), empty_app_id()), children }
}

/// The number `n`.
pub fn num_re(n: u32) -> (e: RecExpr2)
    ensures
        expr_is(e, t_num(n)),
{
    RecExpr2 { node: RiseENode::Number(n), children: Vec::new() }
}

/// The symbol named `s`.
pub fn symb_re(s: &str) -> (e: RecExpr2)
    ensures
        expr_is(e, t_symb(s@)),
{
    RecExpr2 { node: RiseENode::Symbol(s.to_owned()), children: Vec::new() }
}

/// `add1` composed with itself `k` times, applied to `add1`, with `comp` as slot 0 and
/// `add1` as slot 1: `comp add1 (comp add1 (... add1))`.
pub open spec fn reduction_chain(k: nat) -> RiseTerm
    decreases k,
{
    if k == 0 {
        t_var(Slot(1))
    } else {
        t_app(t_app(t_var(Slot(0)), t_var(Slot(1))), reduction_chain((k - 1) as nat))
    }
}

/// `(\comp. (\add1. chain) (\y. y + 1)) (\f. \g. \x. f (g x))`, where the chain composes
/// `add1` six times.
pub open spec fn reduction_term() -> RiseTerm {
    let comp_re = t_lam(
        Slot(3),
        t_lam(Slot(4), t_lam(Slot(5), t_app(t_var(Slot(3)), t_app(t_var(Slot(4)), t_var(Slot(5)))))),
    );
    let add1_re = t_lam(Slot(2), t_add(t_var(Slot(2)), t_num(1)));
    t_app(t_lam(Slot(0), t_app(t_lam(Slot(1), reduction_chain(6)), add1_re)), comp_re)
}

/// An expression that reduces to `\x. x + 7`: six compositions of `add1` with itself.
pub fn reduction_re() -> (e: RecExpr2)
    ensures
        expr_is(e, reduction_term()),
{
    let comp: usize = 0;
    let add1: usize = 1;
    let y: usize = 2;
    let f: usize = 3;
    let g: usize = 4;
    let x: usize = 5;

    let comp_re = lam_re(
        f,
        lam_re(g, lam_re(x, app_re(var_re(f), app_re(var_re(g), var_re(x))))),
    );
    let add1_re = lam_re(y, add_re(var_re(y), num_re(1)));
    let mut it = var_re(add1);
    let mut k: usize = 0;
    while k < 6
        invariant
            0 <= k <= 6,
            comp == 0,
            add1 == 1,
            expr_is(it, reduction_chain(k as nat)),
        decreases 6 - k,
    {
        let step = app_re(var_re(comp), var_re(add1));
        assert(expr_is(step, t_app(t_var(Slot(0)), t_var(Slot(1)))));
        let ghost before = reduction_chain(k as nat);
        it = app_re(step, it);
        assert(expr_is(it, t_app(t_app(t_var(Slot(0)), t_var(Slot(1))), before)));
        assert(reduction_chain((k + 1) as nat) == t_app(t_app(t_var(Slot(0)), t_var(Slot(1))), before));
        k = k + 1;
    }
    app_re(lam_re(comp, app_re(lam_re(add1, it), add1_re)), comp_re)
}

/// The decimal digits of `n`.
pub open spec fn decimal(n: nat) -> Seq<char>
    decreases n,
{
    if n < 10 {
        seq![(n + 48) as char]
    } else {
        decimal(n / 10).push(((n % 10) + 48) as char)
    }
}

/// The decimal digit `d`.
fn digit_str(d: usize) -> (s: &'static str)
    requires
        d < 10,
    ensures
        s@ == seq![(d + 48) as char],
{
    match d {
        0 => {
            proof {
                reveal_strlit("0");
            }
            "0"
        },
        1 => {
            proof {
                reveal_strlit("1");
            }
            "1"
        },
        2 => {
            proof {
                reveal_strlit("2");
            }
            "2"
        },
        3 => {
            proof {
                reveal_strlit("3");
            }
            "3"
        },
        4 => {
            proof {
                reveal_strlit("4");
            }
            "4"
        },
        5 => {
            proof {
                reveal_strlit("5");
            }
            "5"
        },
        6 => {
            proof {
                reveal_strlit("6");
            }
            "6"
        },
        7 => {
            proof {
                reveal_strlit("7");
            }
            "7"
        },
        8 => {
            proof {
                reveal_strlit("8");
            }
            "8"
        },
        _ => {
            proof {
                reveal_strlit("9");
            }
            "9"
        },
    }
}

/// The decimal digits of `n`.
fn decimal_string(n: usize) -> (s: String)
    ensures
        s@ == decimal(n as nat),
    decreases n,
{
    if n < 10 {
        String::from_str(digit_str(n))
    } else {
        let mut s = decimal_string(n / 10);
        s.append(digit_str(n % 10));
        s
    }
}

/// The symbol name `f` followed by the decimal digits of `i`.
fn numbered_symbol(i: usize) -> (s: String)
    ensures
        s@ == seq!['f'] + decimal(i as nat),
{
    let mut s = String::from_str("f");
    proof {
        reveal_strlit("f");
    }
    s.append(decimal_string(i).as_str());
    s
}

/// `f5 (f4 (... (fk s0)))`: the symbols `f1` to `fk` applied in turn to slot 0.
pub open spec fn fission_chain(k: nat) -> RiseTerm
    decreases k,
{
    if k == 0 {
        t_var(Slot(0))
    } else {
        t_app(t_symb(seq!['f'] + decimal(k)), fission_chain((k - 1) as nat))
    }
}

/// `map (\s0. f5 (f4 (f3 (f2 (f1 s0)))))`.
pub fn fission_re1() -> (e: RecExpr2)
    ensures
        expr_is(e, t_app(t_symb("map"@), t_lam(Slot(0), fission_chain(5)))),
{
    let map = symb_re("map");
    let x: usize = 0;
    let mut it = var_re(x);
    let mut i: usize = 1;
    while i <= 5
        invariant
            1 <= i <= 6,
            expr_is(it, fission_chain((i - 1) as nat)),
            x == 0,
        decreases 6 - i,
    {
        let name = numbered_symbol(i);
        let s = symb_re(name.as_str());
        it = app_re(s, it);
        i = i + 1;
    }
    app_re(map, lam_re(x, it))
}

} // verus!

verus! {

/// A binding just made is what a lookup finds, whatever the substitution held before;
/// other names are looked up as before; an empty substitution binds nothing.
pub proof fn lemma_subst_insert_lookup(
    s: Seq<(Seq<char>, AppliedIdView)>,
    n: Seq<char>,
    a: AppliedIdView,
    other: Seq<char>,
)
    ensures
        subst_lookup(s.push((n, a)), n) == Some(a),
        other != n ==> subst_lookup(s.push((n, a)), other) == subst_lookup(s, other),
        subst_lookup(Seq::empty(), n) is None,
{
    assert(s.push((n, a)).drop_last() =~= s);
}

/// A lookup finds a binding of the name, and the latest one: no later entry binds it.
pub proof fn lemma_subst_lookup_latest(s: Seq<(Seq<char>, AppliedIdView)>, n: Seq<char>)
    ensures
        subst_lookup(s, n) is Some <==> exists|i: int| 0 <= i < s.len() && (#[trigger] s[i]).0 == n,
        subst_lookup(s, n) is Some ==> exists|i: int|
            0 <= i < s.len() && (#[trigger] s[i]) == (n, subst_lookup(s, n).unwrap()) && forall|j: int|
                i < j < s.len() ==> (#[trigger] s[j]).0 != n,
    decreases s.len(),
{
    if s.len() > 0 {
        let d = s.drop_last();
        lemma_subst_lookup_latest(d, n);
        assert(s[s.len() - 1] == s.last());
        if s.last().0 != n {
            if exists|i: int| 0 <= i < s.len() && (#[trigger] s[i]).0 == n {
                let i = choose|i: int| 0 <= i < s.len() && (#[trigger] s[i]).0 == n;
                assert(d[i] == s[i]);
            }
            if subst_lookup(d, n) is Some {
                let i = choose|i: int|
                    0 <= i < d.len() && (#[trigger] d[i]) == (n, subst_lookup(d, n).unwrap()) && forall|j: int|
                        i < j < d.len() ==> (#[trigger] d[j]).0 != n;
                assert(s[i] == d[i]);
                assert forall|j: int| i < j < s.len() implies (#[trigger] s[j]).0 != n by {
                    if j < d.len() {
                        assert(s[j] == d[j]);
                    }
                }
            }
        }
    }
}

/// What a rewrite condition decides, in terms of the slots that the bound applied ids
/// expose (the values of their slot maps): `Always` holds; `SlotNotFreeIn(v, x)` holds
/// exactly when no slot that `v`'s binding exposes is `x`; `SlotFreeIn(v, x)` exactly when
/// one is; `SlotFreeInEither(v, w, x)` exactly when `v`'s or `w`'s binding exposes `x`.
pub proof fn lemma_condition_meaning(c: ConditionSpec, s: Seq<(Seq<char>, AppliedIdView)>)
    requires
        condition_bound(c, s),
    ensures
        c is Always ==> condition_holds(c, s),
        c matches ConditionSpec::SlotNotFreeIn(v, x) ==> (condition_holds(c, s) <==> !exists|i: int|
            0 <= i < subst_lookup(s, v).unwrap().1.len() && (#[trigger] subst_lookup(s, v).unwrap().1[i]).1
                == x),
        c matches ConditionSpec::SlotFreeIn(v, x) ==> (condition_holds(c, s) <==> exists|i: int|
            0 <= i < subst_lookup(s, v).unwrap().1.len() && (#[trigger] subst_lookup(s, v).unwrap().1[i]).1
                == x),
        c matches ConditionSpec::SlotFreeInEither(v, w, x) ==> (condition_holds(c, s) <==> (exists|i: int|
            0 <= i < subst_lookup(s, v).unwrap().1.len() && (#[trigger] subst_lookup(s, v).unwrap().1[i]).1
                == x) || (exists|i: int|
            0 <= i < subst_lookup(s, w).unwrap().1.len() && (#[trigger] subst_lookup(s, w).unwrap().1[i]).1
                == x)),
{
    assert forall|v: Seq<char>, x: Slot| free_in(s, v, x) <==> exists|i: int|
        0 <= i < subst_lookup(s, v).unwrap().1.len() && (#[trigger] subst_lookup(s, v).unwrap().1[i]).1 == x by {
        let m = subst_lookup(s, v).unwrap().1;
        if free_in(s, v, x) {
            let i = choose|i: int| 0 <= i < applied_slots(subst_lookup(s, v).unwrap()).len()
                && applied_slots(subst_lookup(s, v).unwrap())[i] == x;
            assert(m[i].1 == x);
        }
        if exists|i: int| 0 <= i < m.len() && (#[trigger] m[i]).1 == x {
            let i = choose|i: int| 0 <= i < m.len() && (#[trigger] m[i]).1 == x;
            assert(applied_slots(subst_lookup(s, v).unwrap())[i] == x);
        }
    }
}

} // verus!
