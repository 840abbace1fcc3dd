//! Approval requirements as boolean trees over owners, and their reduction.
use crate::codeowners::{
    insert_owner, insert_sorted, lemma_insert_sorted_ascending, lemma_insert_sorted_elements,
    owners_of, strictly_ascending, CodeOwners, RuleModel,
};
use crate::text::{chars_of, contains_name, str_eq, string_of, strings_view};
use vstd::prelude::*;
use vstd::string::StringExecFns;

verus! {

/// A requirement as the contracts see it.
pub enum Cond {
    /// Every child must be satisfied.
    And(Seq<Cond>),
    /// Any one child suffices.
    Or(Seq<Cond>),
    /// Approval by this owner.
    Owner(Seq<char>),
}

/// The approvals a change needs: owners combined by `And` and `Or`.
#[derive(Debug)]
pub enum OwnersConditional {
    And(Vec<OwnersConditional>),
    Or(Vec<OwnersConditional>),
    Owner(String),
}

pub open spec fn cond_of(c: OwnersConditional) -> Cond
    decreases c,
{
    match c {
        OwnersConditional::And(v) => Cond::And(conds_of(v@)),
        OwnersConditional::Or(v) => Cond::Or(conds_of(v@)),
        OwnersConditional::Owner(n) => Cond::Owner(n@),
    }
}

pub open spec fn conds_of(v: Seq<OwnersConditional>) -> Seq<Cond>
    decreases v,
{
    if v.len() == 0 {
        Seq::empty()
    } else {
        conds_of(v.subrange(0, v.len() - 1)).push(cond_of(v[v.len() - 1]))
    }
}

impl View for OwnersConditional {
    type V = Cond;

    open spec fn view(&self) -> Cond {
        cond_of(*self)
    }
}


proof fn lemma_conds_of(v: Seq<OwnersConditional>)
    ensures
        conds_of(v).len() == v.len(),
        forall|i: int| 0 <= i < v.len() ==> #[trigger] conds_of(v)[i] == cond_of(v[i]),
    decreases v.len(),
{
    if v.len() > 0 {
        lemma_conds_of(v.subrange(0, v.len() - 1));
    }
}

/// Whether two requirements are the same: same variant, same owner, and for
/// `And` and `Or` the same children regardless of order and repeats.
pub open spec fn same_requirement(a: Cond, b: Cond) -> bool
    decreases a, 0nat,
{
    match a {
        Cond::Owner(x) => b == Cond::Owner(x),
        Cond::And(xs) => match b {
            Cond::And(ys) => all_matched(xs, ys) && all_matched_back(xs, ys),
            _ => false,
        },
        Cond::Or(xs) => match b {
            Cond::Or(ys) => all_matched(xs, ys) && all_matched_back(xs, ys),
            _ => false,
        },
    }
}

/// Some child in `ys` is the same requirement as `x`.
pub open spec fn has_match(x: Cond, ys: Seq<Cond>) -> bool
    decreases x, ys.len() + 1,
{
    ys.len() > 0 && (same_requirement(x, ys[ys.len() - 1]) || has_match(
        x,
        ys.subrange(0, ys.len() - 1),
    ))
}

/// Some child in `xs` is the same requirement as `y`.
pub open spec fn is_matched(xs: Seq<Cond>, y: Cond) -> bool
    decreases xs, 0nat,
{
    xs.len() > 0 && (same_requirement(xs[xs.len() - 1], y) || is_matched(
        xs.subrange(0, xs.len() - 1),
        y,
    ))
}

/// Every child in `xs` has a match in `ys`.
pub open spec fn all_matched(xs: Seq<Cond>, ys: Seq<Cond>) -> bool
    decreases xs, 0nat,
{
    xs.len() == 0 || (has_match(xs[xs.len() - 1], ys) && all_matched(
        xs.subrange(0, xs.len() - 1),
        ys,
    ))
}

/// Every child in `ys` is matched in `xs`.
pub open spec fn all_matched_back(xs: Seq<Cond>, ys: Seq<Cond>) -> bool
    decreases xs, ys.len() + 1,
{
    ys.len() == 0 || (is_matched(xs, ys[ys.len() - 1]) && all_matched_back(
        xs,
        ys.subrange(0, ys.len() - 1),
    ))
}

fn same_requirement_exec(a: &OwnersConditional, b: &OwnersConditional) -> (r: bool)
    ensures
        r == same_requirement(a@, b@),
    decreases a,
{
    match a {
        OwnersConditional::Owner(x) => match b {
            OwnersConditional::Owner(y) => str_eq(x.as_str(), y.as_str()),
            _ => false,
        },
        OwnersConditional::And(xs) => match b {
            OwnersConditional::And(ys) => same_children_exec(xs, ys),
            _ => false,
        },
        OwnersConditional::Or(xs) => match b {
            OwnersConditional::Or(ys) => same_children_exec(xs, ys),
            _ => false,
        },
    }
}

fn same_children_exec(xs: &Vec<OwnersConditional>, ys: &Vec<OwnersConditional>) -> (r: bool)
    ensures
        r == (all_matched(conds_of(xs@), conds_of(ys@)) && all_matched_back(
            conds_of(xs@),
            conds_of(ys@),
        )),
    decreases xs,
{
    let ghost cx = conds_of(xs@);
    let ghost cy = conds_of(ys@);
    proof {
        lemma_conds_of(xs@);
        lemma_conds_of(ys@);
    }
    let mut ok = true;
    let mut i: usize = 0;
    assert(cx.take(0) == Seq::<Cond>::empty());
    while i < xs.len() && ok
        invariant
            i <= xs@.len(),
            cx == conds_of(xs@),
            cy == conds_of(ys@),
            cx.len() == xs@.len(),
            cy.len() == ys@.len(),
            forall|k: int| 0 <= k < xs@.len() ==> #[trigger] cx[k] == xs@[k]@,
            forall|k: int| 0 <= k < ys@.len() ==> #[trigger] cy[k] == ys@[k]@,
            ok == all_matched(cx.take(i as int), cy),
            !ok ==> !all_matched(cx, cy),
        decreases xs@.len() - i,
    {
        let mut j: usize = 0;
        let mut found = false;
        assert(cy.take(0) == Seq::<Cond>::empty());
        while j < ys.len() && !found
            invariant
                i < xs@.len(),
                j <= ys@.len(),
                cx.len() == xs@.len(),
                cy.len() == ys@.len(),
                forall|k: int| 0 <= k < xs@.len() ==> #[trigger] cx[k] == xs@[k]@,
                forall|k: int| 0 <= k < ys@.len() ==> #[trigger] cy[k] == ys@[k]@,
                found == has_match(cx[i as int], cy.take(j as int)),
                found ==> has_match(cx[i as int], cy),
            decreases ys@.len() - j,
        {
            assert(cy.take(j + 1).subrange(0, j as int) == cy.take(j as int));
            assert(cy.take(j + 1)[j as int] == ys@[j as int]@);
            if same_requirement_exec(&xs[i], &ys[j]) {
                found = true;
                proof {
                    lemma_has_match_extends(cx[i as int], cy, j + 1);
                }
            }
            j = j + 1;
        }
        proof {
            if !found {
                assert(cy.take(j as int) == cy);
            }
            assert(cx.take(i + 1).subrange(0, i as int) == cx.take(i as int));
            assert(cx.take(i + 1)[i as int] == cx[i as int]);
            if !found {
                lemma_all_matched_needs(cx, cy, i as int);
            }
        }
        ok = found && ok;
        i = i + 1;
    }
    if !ok {
        return false;
    }
    assert(cx.take(cx.len() as int) == cx);
    let mut j: usize = 0;
    assert(cy.take(0) == Seq::<Cond>::empty());
    while j < ys.len() && ok
        invariant
            j <= ys@.len(),
            cx == conds_of(xs@),
            cy == conds_of(ys@),
            cx.len() == xs@.len(),
            cy.len() == ys@.len(),
            forall|k: int| 0 <= k < xs@.len() ==> #[trigger] cx[k] == xs@[k]@,
            forall|k: int| 0 <= k < ys@.len() ==> #[trigger] cy[k] == ys@[k]@,
            all_matched(cx, cy),
            ok == all_matched_back(cx, cy.take(j as int)),
            !ok ==> !all_matched_back(cx, cy),
        decreases ys@.len() - j,
    {
        let mut i: usize = 0;
        let mut found = false;
        assert(cx.take(0) == Seq::<Cond>::empty());
        while i < xs.len() && !found
            invariant
                j < ys@.len(),
                i <= xs@.len(),
                cx.len() == xs@.len(),
                cy.len() == ys@.len(),
                forall|k: int| 0 <= k < xs@.len() ==> #[trigger] cx[k] == xs@[k]@,
                forall|k: int| 0 <= k < ys@.len() ==> #[trigger] cy[k] == ys@[k]@,
                found == is_matched(cx.take(i as int), cy[j as int]),
                found ==> is_matched(cx, cy[j as int]),
            decreases xs@.len() - i,
        {
            assert(cx.take(i + 1).subrange(0, i as int) == cx.take(i as int));
            assert(cx.take(i + 1)[i as int] == xs@[i as int]@);
            if same_requirement_exec(&xs[i], &ys[j]) {
                found = true;
                proof {
                    lemma_is_matched_extends(cx, cy[j as int], i + 1);
                }
            }
            i = i + 1;
        }
        proof {
            if !found {
                assert(cx.take(i as int) == cx);
            }
            assert(cy.take(j + 1).subrange(0, j as int) == cy.take(j as int));
            assert(cy.take(j + 1)[j as int] == cy[j as int]);
            if !found {
                lemma_all_matched_back_needs(cx, cy, j as int);
            }
        }
        ok = found && ok;
        j = j + 1;
    }
    if ok {
        assert(cy.take(cy.len() as int) == cy);
    }
    ok
}

proof fn lemma_has_match_extends(x: Cond, ys: Seq<Cond>, n: int)
    requires
        0 <= n <= ys.len(),
        has_match(x, ys.take(n)),
    ensures
        has_match(x, ys),
    decreases ys.len() - n,
{
    if n < ys.len() {
        assert(ys.take(n + 1).subrange(0, n) == ys.take(n));
        lemma_has_match_extends(x, ys, n + 1);
    } else {
        assert(ys.take(n) == ys);
    }
}

proof fn lemma_is_matched_extends(xs: Seq<Cond>, y: Cond, n: int)
    requires
        0 <= n <= xs.len(),
        is_matched(xs.take(n), y),
    ensures
        is_matched(xs, y),
    decreases xs.len() - n,
{
    if n < xs.len() {
        assert(xs.take(n + 1).subrange(0, n) == xs.take(n));
        lemma_is_matched_extends(xs, y, n + 1);
    } else {
        assert(xs.take(n) == xs);
    }
}

proof fn lemma_all_matched_needs(xs: Seq<Cond>, ys: Seq<Cond>, i: int)
    requires
        0 <= i < xs.len(),
        !has_match(xs[i], ys),
    ensures
        !all_matched(xs, ys),
    decreases xs.len(),
{
    if i < xs.len() - 1 {
        let front = xs.subrange(0, xs.len() - 1);
        assert(front[i] == xs[i]);
        lemma_all_matched_needs(front, ys, i);
    }
}

proof fn lemma_all_matched_back_needs(xs: Seq<Cond>, ys: Seq<Cond>, j: int)
    requires
        0 <= j < ys.len(),
        !is_matched(xs, ys[j]),
    ensures
        !all_matched_back(xs, ys),
    decreases ys.len(),
{
    if j < ys.len() - 1 {
        let front = ys.subrange(0, ys.len() - 1);
        assert(front[j] == ys[j]);
        lemma_all_matched_back_needs(xs, front, j);
    }
}

/// The children of `s` whose flag is set, in order.
pub open spec fn kept(s: Seq<Cond>, flags: Seq<bool>) -> Seq<Cond>
    decreases s.len(),
{
    if s.len() == 0 {
        Seq::empty()
    } else {
        let prev = kept(s.subrange(0, s.len() - 1), flags);
        if flags[s.len() - 1] {
            prev.push(s[s.len() - 1])
        } else {
            prev
        }
    }
}

/// The `i`-th child is the same requirement as an earlier one.
pub open spec fn repeats_earlier(s: Seq<Cond>, i: int) -> bool {
    exists|j: int| 0 <= j < i && #[trigger] same_requirement(s[j], s[i])
}

/// The children without those that repeat an earlier one: the first
/// occurrence stays.
pub open spec fn drop_repeats(s: Seq<Cond>) -> Seq<Cond> {
    kept(s, Seq::new(s.len(), |i: int| !repeats_earlier(s, i)))
}

/// An `Or` that lists, among its alternatives, an owner who is also required
/// on their own among `siblings`.
pub open spec fn absorbed(c: Cond, siblings: Seq<Cond>) -> bool {
    match c {
        Cond::Or(alts) => exists|k: int, m: int|
            #![trigger alts[k], siblings[m]]
            0 <= k < alts.len() && 0 <= m < siblings.len() && alts[k] is Owner && siblings[m]
                == alts[k],
        _ => false,
    }
}

/// The children without the absorbed `Or`s.
pub open spec fn drop_absorbed(s: Seq<Cond>) -> Seq<Cond> {
    kept(s, Seq::new(s.len(), |i: int| !absorbed(s[i], s)))
}

/// Duplicate elimination among the direct children of a top-level `And`.
pub open spec fn without_duplicates(c: Cond) -> Cond {
    match c {
        Cond::And(xs) => Cond::And(drop_repeats(xs)),
        _ => c,
    }
}

/// Absorption among the direct children of a top-level `And`.
pub open spec fn without_absorbed(c: Cond) -> Cond {
    match c {
        Cond::And(xs) => Cond::And(drop_absorbed(xs)),
        _ => c,
    }
}

/// The minimal form: duplicates eliminated, then absorbed `Or`s dropped.
pub open spec fn reduced(c: Cond) -> Cond {
    without_absorbed(without_duplicates(c))
}

/// The items whose flag is set, moved out of `items` in order.
fn take_kept(items: Vec<OwnersConditional>, flags: &Vec<bool>) -> (r: Vec<OwnersConditional>)
    requires
        flags@.len() == items@.len(),
    ensures
        conds_of(r@) == kept(conds_of(items@), flags@),
{
    let ghost c = conds_of(items@);
    proof {
        lemma_conds_of(items@);
    }
    let ghost orig = items@;
    let mut out: Vec<OwnersConditional> = Vec::new();
    let mut k: usize = 0;
    let n = flags.len();
    assert(c.take(0) == Seq::<Cond>::empty());
    for x in it: items
        invariant
            k == it.index(),
            n == flags@.len(),
            it.seq() == orig,
            c == conds_of(orig),
            c.len() == orig.len(),
            forall|i: int| 0 <= i < orig.len() ==> #[trigger] c[i] == orig[i]@,
            flags@.len() == orig.len(),
            conds_of(out@) == kept(c.take(k as int), flags@),
    {
        let ghost prev = conds_of(out@);
        let ghost before = out@;
        assert(k < n);
        assert(c.take(k + 1).subrange(0, k as int) == c.take(k as int));
        assert(c.take(k + 1)[k as int] == c[k as int]);
        if flags[k] {
            proof {
                assert(x == orig[k as int]);
            }
            out.push(x);
            assert(out@.subrange(0, out@.len() - 1) == before);
            assert(conds_of(out@) == prev.push(c[k as int]));
        }
        k = k + 1;
    }
    assert(c.take(c.len() as int) == c);
    out
}

/// For each item, whether it repeats no earlier item.
fn first_occurrences(items: &Vec<OwnersConditional>) -> (r: Vec<bool>)
    ensures
        r@ == Seq::new(items@.len(), |i: int| !repeats_earlier(conds_of(items@), i)),
{
    let ghost c = conds_of(items@);
    proof {
        lemma_conds_of(items@);
    }
    let mut r: Vec<bool> = Vec::new();
    let mut i: usize = 0;
    while i < items.len()
        invariant
            i <= items@.len(),
            c == conds_of(items@),
            c.len() == items@.len(),
            forall|k: int| 0 <= k < items@.len() ==> #[trigger] c[k] == items@[k]@,
            r@.len() == i,
            forall|k: int| 0 <= k < i ==> r@[k] == !repeats_earlier(c, k),
        decreases items@.len() - i,
    {
        let mut j: usize = 0;
        let mut dup = false;
        while j < i && !dup
            invariant
                j <= i < items@.len(),
                c.len() == items@.len(),
                forall|k: int| 0 <= k < items@.len() ==> #[trigger] c[k] == items@[k]@,
                dup ==> repeats_earlier(c, i as int),
                !dup ==> forall|k: int| 0 <= k < j ==> !same_requirement(#[trigger] c[k], c[i as int]),
            decreases i - j,
        {
            if same_requirement_exec(&items[j], &items[i]) {
                assert(same_requirement(c[j as int], c[i as int]));
                dup = true;
            }
            j = j + 1;
        }
        r.push(!dup);
        i = i + 1;
    }
    assert(r@ == Seq::new(items@.len(), |i: int| !repeats_earlier(c, i)));
    r
}

/// Whether `items` holds the owner `name` as an item of its own.
fn lists_owner(items: &Vec<OwnersConditional>, name: &String) -> (r: bool)
    ensures
        r == exists|m: int|
            0 <= m < items@.len() && #[trigger] conds_of(items@)[m] == Cond::Owner(name@),
{
    proof {
        lemma_conds_of(items@);
    }
    let mut m: usize = 0;
    while m < items.len()
        invariant
            m <= items@.len(),
            conds_of(items@).len() == items@.len(),
            forall|k: int| 0 <= k < items@.len() ==> #[trigger] conds_of(items@)[k] == items@[k]@,
            forall|k: int| 0 <= k < m ==> #[trigger] conds_of(items@)[k] != Cond::Owner(name@),
        decreases items@.len() - m,
    {
        match &items[m] {
            OwnersConditional::Owner(other) => {
                if str_eq(other.as_str(), name.as_str()) {
                    assert(conds_of(items@)[m as int] == Cond::Owner(name@));
                    return true;
                }
            },
            _ => {},
        }
        m = m + 1;
    }
    false
}

/// Whether `c` is an `Or` absorbed by an owner required among `items`.
fn is_absorbed(c: &OwnersConditional, items: &Vec<OwnersConditional>) -> (r: bool)
    ensures
        r == absorbed(c@, conds_of(items@)),
{
    let ghost sib = conds_of(items@);
    proof {
        lemma_conds_of(items@);
    }
    match c {
        OwnersConditional::Or(alts) => {
            let ghost ca = conds_of(alts@);
            proof {
                lemma_conds_of(alts@);
            }
            let mut k: usize = 0;
            assert(c@ == Cond::Or(ca));
            while k < alts.len()
                invariant
                    k <= alts@.len(),
                    c@ == Cond::Or(ca),
                    ca == conds_of(alts@),
                    ca.len() == alts@.len(),
                    sib == conds_of(items@),
                    sib.len() == items@.len(),
                    forall|q: int| 0 <= q < alts@.len() ==> #[trigger] ca[q] == alts@[q]@,
                    forall|q: int, m: int|
                        #![trigger ca[q], sib[m]]
                        0 <= q < k && 0 <= m < sib.len() ==> !(ca[q] is Owner && sib[m] == ca[q]),
                decreases alts@.len() - k,
            {
                match &alts[k] {
                    OwnersConditional::Owner(name) => {
                        if lists_owner(items, name) {
                            let ghost m = choose|m: int|
                                0 <= m < items@.len() && #[trigger] conds_of(items@)[m]
                                    == Cond::Owner(name@);
                            assert(ca[k as int] is Owner && sib[m] == ca[k as int]);
                            return true;
                        }
                    },
                    _ => {},
                }
                k = k + 1;
            }
            false
        },
        _ => false,
    }
}

/// For each item, whether it is not absorbed by its siblings.
fn unabsorbed(items: &Vec<OwnersConditional>) -> (r: Vec<bool>)
    ensures
        r@ == Seq::new(items@.len(), |i: int| !absorbed(conds_of(items@)[i], conds_of(items@))),
{
    let ghost c = conds_of(items@);
    proof {
        lemma_conds_of(items@);
    }
    let mut r: Vec<bool> = Vec::new();
    let mut i: usize = 0;
    while i < items.len()
        invariant
            i <= items@.len(),
            c == conds_of(items@),
            c.len() == items@.len(),
            forall|k: int| 0 <= k < items@.len() ==> #[trigger] c[k] == items@[k]@,
            r@.len() == i,
            forall|k: int| 0 <= k < i ==> r@[k] == !absorbed(c[k], c),
        decreases items@.len() - i,
    {
        let a = is_absorbed(&items[i], items);
        r.push(!a);
        i = i + 1;
    }
    assert(r@ == Seq::new(items@.len(), |i: int| !absorbed(c[i], c)));
    r
}

impl OwnersConditional {
    /// The minimal form of a requirement: duplicates eliminated among the
    /// direct children of a top-level `And`, then each `Or` child dropped that
    /// lists an owner who is also a child of their own.
    pub fn reduce(self) -> (r: OwnersConditional)
        ensures
            r@ == reduced(self@),
    {
        self.reduce_duplicates().reduce_or_duplicates()
    }

    /// Removes the direct children of a top-level `And` that are the same
    /// requirement as an earlier child; the first occurrence stays. Anything
    /// else is returned unchanged.
    pub fn reduce_duplicates(self) -> (r: OwnersConditional)
        ensures
            r@ == without_duplicates(self@),
    {
        match self {
            OwnersConditional::And(items) => {
                let flags = first_occurrences(&items);
                proof {
                    lemma_conds_of(items@);
                }
                let ghost xs = conds_of(items@);
                let r = OwnersConditional::And(take_kept(items, &flags));
                assert(flags@ == Seq::new(xs.len(), |i: int| !repeats_earlier(xs, i)));
                r
            },
            other => other,
        }
    }

    /// Removes the `Or` children of a top-level `And` that list, among their
    /// alternatives, an owner who is also a child of the `And`. Anything else
    /// is returned unchanged.
    pub fn reduce_or_duplicates(self) -> (r: OwnersConditional)
        ensures
            r@ == without_absorbed(self@),
    {
        match self {
            OwnersConditional::And(items) => {
                let flags = unabsorbed(&items);
                proof {
                    lemma_conds_of(items@);
                }
                let ghost xs = conds_of(items@);
                let r = OwnersConditional::And(take_kept(items, &flags));
                assert(flags@ == Seq::new(xs.len(), |i: int| !absorbed(xs[i], xs)));
                r
            },
            other => other,
        }
    }
}

/// `c` without the owners in `excluded`: a node whose children all go goes
/// too (`None`), a node left with one child becomes that child.
pub open spec fn removed(c: Cond, excluded: Set<Seq<char>>) -> Option<Cond>
    decreases c,
{
    match c {
        Cond::Owner(n) => if excluded.contains(n) {
            None
        } else {
            Some(c)
        },
        Cond::And(xs) => collapse(survivors(xs, excluded), true),
        Cond::Or(xs) => collapse(survivors(xs, excluded), false),
    }
}

/// What is left of each child, in order, without those that went.
pub open spec fn survivors(xs: Seq<Cond>, excluded: Set<Seq<char>>) -> Seq<Cond>
    decreases xs,
{
    if xs.len() == 0 {
        Seq::empty()
    } else {
        let prev = survivors(xs.subrange(0, xs.len() - 1), excluded);
        match removed(xs[xs.len() - 1], excluded) {
            Some(c) => prev.push(c),
            None => prev,
        }
    }
}

/// No node for no children, the child itself for one, else an `And` or an `Or`.
pub open spec fn collapse(s: Seq<Cond>, is_and: bool) -> Option<Cond> {
    if s.len() == 0 {
        None
    } else if s.len() == 1 {
        Some(s[0])
    } else if is_and {
        Some(Cond::And(s))
    } else {
        Some(Cond::Or(s))
    }
}

pub open spec fn opt_cond(r: Option<OwnersConditional>) -> Option<Cond> {
    match r {
        Some(c) => Some(c@),
        None => None,
    }
}

fn copy_name(n: &String) -> (r: String)
    ensures
        r@ == n@,
{
    n.clone()
}

fn removed_exec(c: &OwnersConditional, excluded: &Vec<String>) -> (r: Option<OwnersConditional>)
    ensures
        opt_cond(r) == removed(c@, strings_view(excluded@).to_set()),
    decreases c,
{
    let ghost ex = strings_view(excluded@).to_set();
    match c {
        OwnersConditional::Owner(owner) => {
            if contains_name(excluded, owner) {
                None
            } else {
                Some(OwnersConditional::Owner(copy_name(owner)))
            }
        },
        OwnersConditional::And(items) => {
            let vals = survivors_exec(items, excluded);
            collapse_exec(vals, true)
        },
        OwnersConditional::Or(items) => {
            let vals = survivors_exec(items, excluded);
            collapse_exec(vals, false)
        },
    }
}

fn survivors_exec(items: &Vec<OwnersConditional>, excluded: &Vec<String>) -> (r: Vec<
    OwnersConditional,
>)
    ensures
        conds_of(r@) == survivors(conds_of(items@), strings_view(excluded@).to_set()),
    decreases items,
{
    let ghost ex = strings_view(excluded@).to_set();
    let ghost c = conds_of(items@);
    proof {
        lemma_conds_of(items@);
    }
    let mut out: Vec<OwnersConditional> = Vec::new();
    let mut k: usize = 0;
    assert(c.take(0) == Seq::<Cond>::empty());
    while k < items.len()
        invariant
            k <= items@.len(),
            c == conds_of(items@),
            c.len() == items@.len(),
            ex == strings_view(excluded@).to_set(),
            forall|i: int| 0 <= i < items@.len() ==> #[trigger] c[i] == items@[i]@,
            conds_of(out@) == survivors(c.take(k as int), ex),
        decreases items@.len() - k,
    {
        let ghost prev = conds_of(out@);
        let ghost before = out@;
        assert(c.take(k + 1).subrange(0, k as int) == c.take(k as int));
        assert(c.take(k + 1)[k as int] == c[k as int]);
        match removed_exec(&items[k], excluded) {
            Some(x) => {
                out.push(x);
                assert(out@.subrange(0, out@.len() - 1) == before);
                assert(conds_of(out@) == prev.push(x@));
            },
            None => {},
        }
        k = k + 1;
    }
    assert(c.take(c.len() as int) == c);
    out
}

fn collapse_exec(vals: Vec<OwnersConditional>, is_and: bool) -> (r: Option<OwnersConditional>)
    ensures
        opt_cond(r) == collapse(conds_of(vals@), is_and),
{
    proof {
        lemma_conds_of(vals@);
    }
    let mut vals = vals;
    if vals.len() == 0 {
        None
    } else if vals.len() == 1 {
        let ghost v0 = vals@[0];
        let only = vals.remove(0);
        assert(only == v0);
        Some(only)
    } else if is_and {
        Some(OwnersConditional::And(vals))
    } else {
        Some(OwnersConditional::Or(vals))
    }
}

impl OwnersConditional {
    /// Removes every owner in `excluded_owners`. A node whose children all go
    /// goes too, a node left with one child becomes that child, and `None`
    /// means that no requirement remains.
    pub fn remove_all(self, excluded_owners: &Vec<String>) -> (r: Option<OwnersConditional>)
        ensures
            opt_cond(r) == removed(self@, strings_view(excluded_owners@).to_set()),
    {
        removed_exec(&self, excluded_owners)
    }
}

/// Each changed file with the owners that the rules give it, in ascending
/// order of path, each path once.
pub type OwnersMap = Vec<(String, Option<Vec<String>>)>;

pub open spec fn owners_view(o: Option<Vec<String>>) -> Option<Seq<Seq<char>>> {
    match o {
        Some(v) => Some(strings_view(v@)),
        None => None,
    }
}

pub open spec fn entries_view(m: Seq<(String, Option<Vec<String>>)>) -> Seq<
    (Seq<char>, Option<Seq<Seq<char>>>),
> {
    m.map_values(|e: (String, Option<Vec<String>>)| (e.0@, owners_view(e.1)))
}

pub open spec fn paths_view(files: Seq<&str>) -> Seq<Seq<char>> {
    files.map_values(|f: &str| f@)
}

/// `base` with each of `xs` added in turn, unless already there.
pub open spec fn insert_all(base: Seq<Seq<char>>, xs: Seq<Seq<char>>) -> Seq<Seq<char>>
    decreases xs.len(),
{
    if xs.len() == 0 {
        base
    } else {
        insert_sorted(insert_all(base, xs.subrange(0, xs.len() - 1)), xs[xs.len() - 1])
    }
}

/// The distinct elements in ascending order.
pub open spec fn sorted_distinct(files: Seq<Seq<char>>) -> Seq<Seq<char>> {
    insert_all(Seq::empty(), files)
}

/// Each distinct path, in ascending order, with its owners under `rules`.
pub open spec fn owners_map_of(rules: Seq<RuleModel>, files: Seq<Seq<char>>) -> Seq<
    (Seq<char>, Option<Seq<Seq<char>>>),
> {
    sorted_distinct(files).map_values(|p: Seq<char>| (p, owners_of(rules, p)))
}

/// What one file requires: nothing when untracked or unowned, its owner when
/// it has one, else an `Or` of its distinct owners in ascending order.
pub open spec fn contribution(owners: Option<Seq<Seq<char>>>) -> Option<Cond> {
    match owners {
        None => None,
        Some(os) => {
            let s = sorted_distinct(os);
            if s.len() == 0 {
                None
            } else if s.len() == 1 {
                Some(Cond::Owner(s[0]))
            } else {
                Some(Cond::Or(s.map_values(|n: Seq<char>| Cond::Owner(n))))
            }
        },
    }
}

/// The keys of a map's entries.
pub open spec fn keys_of(m: Seq<(Seq<char>, Option<Seq<Seq<char>>>)>) -> Seq<Seq<char>> {
    m.map_values(|e: (Seq<char>, Option<Seq<Seq<char>>>)| e.0)
}

/// The contributions of the files, in order.
pub open spec fn contributions(m: Seq<(Seq<char>, Option<Seq<Seq<char>>>)>) -> Seq<Cond>
    decreases m.len(),
{
    if m.len() == 0 {
        Seq::empty()
    } else {
        let prev = contributions(m.subrange(0, m.len() - 1));
        match contribution(m[m.len() - 1].1) {
            Some(c) => prev.push(c),
            None => prev,
        }
    }
}

/// The requirement that a set of changed files puts on a change: the `And` of
/// the contributions of its distinct paths, in ascending order of path.
pub open spec fn requirement_of(rules: Seq<RuleModel>, files: Seq<Seq<char>>) -> Cond {
    Cond::And(contributions(owners_map_of(rules, files)))
}

/// Each distinct path of `files`, in ascending order, with its owners.
pub fn to_owners_map(codeowners: &CodeOwners, files: &[&str]) -> (r: OwnersMap)
    ensures
        entries_view(r@) == owners_map_of(codeowners@, paths_view(files@)),
{
    let ghost fs = paths_view(files@);
    let mut keys: Vec<Vec<char>> = Vec::new();
    let mut i: usize = 0;
    assert(fs.take(0) == Seq::<Seq<char>>::empty());
    assert(keys@.map_values(|o: Vec<char>| o@) == Seq::<Seq<char>>::empty());
    while i < files.len()
        invariant
            i <= files@.len(),
            fs == paths_view(files@),
            keys@.map_values(|o: Vec<char>| o@) == sorted_distinct(fs.take(i as int)),
        decreases files@.len() - i,
    {
        let f = chars_of(files[i]);
        assert(fs.take(i + 1).subrange(0, i as int) == fs.take(i as int));
        assert(fs.take(i + 1)[i as int] == f@);
        insert_owner(&mut keys, f);
        i = i + 1;
    }
    assert(fs.take(files@.len() as int) == fs);
    let ghost ks = keys@.map_values(|o: Vec<char>| o@);
    let mut out: OwnersMap = Vec::new();
    let mut k: usize = 0;
    while k < keys.len()
        invariant
            k <= keys@.len(),
            ks == keys@.map_values(|o: Vec<char>| o@),
            ks == sorted_distinct(fs),
            entries_view(out@) == ks.take(k as int).map_values(
                |p: Seq<char>| (p, owners_of(codeowners@, p)),
            ),
        decreases keys@.len() - k,
    {
        let path = string_of(&keys[k]);
        let owners = codeowners.owners(path.as_str());
        let ghost e = (path@, owners_view(owners));
        let ghost before = out@;
        assert(ks[k as int] == path@);
        out.push((path, owners));
        assert(entries_view(out@) == entries_view(before).push(e));
        assert(ks.take(k + 1) == ks.take(k as int).push(ks[k as int]));
        assert(entries_view(out@) == ks.take(k + 1).map_values(
            |p: Seq<char>| (p, owners_of(codeowners@, p)),
        ));
        k = k + 1;
    }
    assert(ks.take(keys@.len() as int) == ks);
    out
}

/// The distinct names, as characters, in ascending order.
fn sorted_names(names: &Vec<String>) -> (r: Vec<Vec<char>>)
    ensures
        r@.map_values(|o: Vec<char>| o@) == sorted_distinct(strings_view(names@)),
{
    let ghost ns = strings_view(names@);
    let mut out: Vec<Vec<char>> = Vec::new();
    let mut i: usize = 0;
    assert(ns.take(0) == Seq::<Seq<char>>::empty());
    assert(out@.map_values(|o: Vec<char>| o@) == Seq::<Seq<char>>::empty());
    while i < names.len()
        invariant
            i <= names@.len(),
            ns == strings_view(names@),
            out@.map_values(|o: Vec<char>| o@) == sorted_distinct(ns.take(i as int)),
        decreases names@.len() - i,
    {
        let c = chars_of(names[i].as_str());
        assert(ns.take(i + 1).subrange(0, i as int) == ns.take(i as int));
        assert(ns.take(i + 1)[i as int] == c@);
        insert_owner(&mut out, c);
        i = i + 1;
    }
    assert(ns.take(names@.len() as int) == ns);
    out
}

/// One owner leaf per name, in order.
fn owner_leaves(names: &Vec<Vec<char>>) -> (r: Vec<OwnersConditional>)
    ensures
        conds_of(r@) == names@.map_values(|o: Vec<char>| o@).map_values(
            |n: Seq<char>| Cond::Owner(n),
        ),
{
    let ghost ns = names@.map_values(|o: Vec<char>| o@);
    let mut out: Vec<OwnersConditional> = Vec::new();
    let mut k: usize = 0;
    while k < names.len()
        invariant
            k <= names@.len(),
            ns == names@.map_values(|o: Vec<char>| o@),
            conds_of(out@) == ns.take(k as int).map_values(|n: Seq<char>| Cond::Owner(n)),
        decreases names@.len() - k,
    {
        let ghost before = out@;
        let leaf = OwnersConditional::Owner(string_of(&names[k]));
        assert(leaf@ == Cond::Owner(ns[k as int]));
        out.push(leaf);
        assert(out@.subrange(0, out@.len() - 1) == before);
        assert(conds_of(out@) == conds_of(before).push(leaf@));
        assert(ns.take(k + 1) == ns.take(k as int).push(ns[k as int]));
        k = k + 1;
    }
    assert(ns.take(names@.len() as int) == ns);
    out
}

impl OwnersConditional {
    /// The requirement of a set of changed files: an `And` over the distinct
    /// paths in ascending order, each contributing its single owner or an
    /// `Or` of its owners; untracked and unowned files contribute nothing.
    pub fn from_codeowners(codeowners: &CodeOwners, files: &[&str]) -> (r: OwnersConditional)
        ensures
            r@ == requirement_of(codeowners@, paths_view(files@)),
    {
        let owners_map = to_owners_map(codeowners, files);
        proof {
            let fs = paths_view(files@);
            lemma_paths_ascending_and_distinct(fs);
            assert(keys_of(entries_view(owners_map@)) == sorted_distinct(fs));
        }
        OwnersConditional::from_owners_map(owners_map)
    }

    /// The `And` of the contributions of the entries, in their order.
    pub fn from_owners_map(owners_map: OwnersMap) -> (r: OwnersConditional)
        requires
            strictly_ascending(keys_of(entries_view(owners_map@))),
        ensures
            r@ == Cond::And(contributions(entries_view(owners_map@))),
    {
        let ghost m = entries_view(owners_map@);
        let mut items: Vec<OwnersConditional> = Vec::new();
        let mut k: usize = 0;
        assert(m.take(0) == Seq::<(Seq<char>, Option<Seq<Seq<char>>>)>::empty());
        assert(conds_of(items@) == Seq::<Cond>::empty());
        while k < owners_map.len()
            invariant
                k <= owners_map@.len(),
                m == entries_view(owners_map@),
                conds_of(items@) == contributions(m.take(k as int)),
            decreases owners_map@.len() - k,
        {
            let ghost before = items@;
            let ghost prev = conds_of(items@);
            assert(m.take(k + 1).subrange(0, k as int) == m.take(k as int));
            assert(m.take(k + 1)[k as int] == m[k as int]);
            match &owners_map[k].1 {
                None => {},
                Some(owners) => {
                    assert(m[k as int].1 == Some(strings_view(owners@)));
                    let sorted = sorted_names(owners);
                    let ghost sv = sorted@.map_values(|o: Vec<char>| o@);
                    if sorted.len() == 1 {
                        let leaf = OwnersConditional::Owner(string_of(&sorted[0]));
                        assert(sv[0] == sorted@[0]@);
                        assert(contribution(m[k as int].1) == Some(leaf@));
                        items.push(leaf);
                        assert(items@.subrange(0, items@.len() - 1) == before);
                        assert(conds_of(items@) == prev.push(leaf@));
                    } else if sorted.len() > 1 {
                        let alts = OwnersConditional::Or(owner_leaves(&sorted));
                        assert(contribution(m[k as int].1) == Some(alts@));
                        items.push(alts);
                        assert(items@.subrange(0, items@.len() - 1) == before);
                        assert(conds_of(items@) == prev.push(alts@));
                    }
                },
            }
            k = k + 1;
        }
        assert(m.take(owners_map@.len() as int) == m);
        OwnersConditional::And(items)
    }
}

/// The text of a requirement: an owner as its name, an `And` or an `Or` as
/// its children joined by ` && ` or ` || `, in parentheses.
pub open spec fn rendered(c: Cond) -> Seq<char>
    decreases c,
{
    match c {
        Cond::Owner(n) => n,
        Cond::And(xs) => "("@ + joined(xs, " && "@) + ")"@,
        Cond::Or(xs) => "("@ + joined(xs, " || "@) + ")"@,
    }
}

/// The texts of the children, separated by `sep`.
pub open spec fn joined(xs: Seq<Cond>, sep: Seq<char>) -> Seq<char>
    decreases xs,
{
    if xs.len() == 0 {
        Seq::empty()
    } else if xs.len() == 1 {
        rendered(xs[0])
    } else {
        joined(xs.subrange(0, xs.len() - 1), sep) + sep + rendered(xs[xs.len() - 1])
    }
}

fn render_into(c: &OwnersConditional, out: &mut String)
    ensures
        final(out)@ == old(out)@ + rendered(c@),
    decreases c,
{
    match c {
        OwnersConditional::Owner(n) => {
            out.append(n.as_str());
        },
        OwnersConditional::And(items) => {
            out.append("(");
            join_into(items, " && ", out);
            out.append(")");
        },
        OwnersConditional::Or(items) => {
            out.append("(");
            join_into(items, " || ", out);
            out.append(")");
        },
    }
}

fn join_into(items: &Vec<OwnersConditional>, sep: &str, out: &mut String)
    ensures
        final(out)@ == old(out)@ + joined(conds_of(items@), sep@),
    decreases items,
{
    let ghost c = conds_of(items@);
    let ghost start = out@;
    proof {
        lemma_conds_of(items@);
    }
    let mut k: usize = 0;
    assert(c.take(0) == Seq::<Cond>::empty());
    assert(start + Seq::<char>::empty() == start);
    while k < items.len()
        invariant
            k <= items@.len(),
            c == conds_of(items@),
            c.len() == items@.len(),
            forall|i: int| 0 <= i < items@.len() ==> #[trigger] c[i] == items@[i]@,
            out@ == start + joined(c.take(k as int), sep@),
        decreases items@.len() - k,
    {
        let ghost t = c.take(k + 1);
        assert(t.subrange(0, k as int) == c.take(k as int));
        assert(t[k as int] == c[k as int]);
        if k > 0 {
            out.append(sep);
        } else {
            assert(t.len() == 1);
        }
        render_into(&items[k], out);
        k = k + 1;
    }
    assert(c.take(c.len() as int) == c);
}

impl OwnersConditional {
    /// The text of the requirement, as in `(@a && (@b || @c))`.
    pub fn render(&self) -> (r: String)
        ensures
            r@ == rendered(self@),
    {
        let mut out = String::new();
        render_into(self, &mut out);
        assert(Seq::<char>::empty() + rendered(self@) == rendered(self@));
        out
    }
}

/// No child is the same requirement as an earlier one.
pub open spec fn no_repeats(s: Seq<Cond>) -> bool {
    forall|j: int, i: int| 0 <= j < i < s.len() ==> !#[trigger] same_requirement(s[j], s[i])
}

/// No child is absorbed by its siblings.
pub open spec fn none_absorbed(s: Seq<Cond>) -> bool {
    forall|i: int| 0 <= i < s.len() ==> !#[trigger] absorbed(s[i], s)
}

/// The positions in `s` of the children that `kept` keeps from its first `n`.
proof fn lemma_kept_positions(s: Seq<Cond>, f: Seq<bool>, n: int) -> (pos: Seq<int>)
    requires
        f.len() == s.len(),
        0 <= n <= s.len(),
    ensures
        pos.len() == kept(s.take(n), f).len(),
        forall|m: int|
            0 <= m < pos.len() ==> 0 <= #[trigger] pos[m] < n && f[pos[m]] && kept(s.take(n), f)[m]
                == s[pos[m]],
        forall|j: int, i: int| 0 <= j < i < pos.len() ==> #[trigger] pos[j] < #[trigger] pos[i],
        forall|p: int|
            0 <= p < n && #[trigger] f[p] ==> exists|m: int| 0 <= m < pos.len() && pos[m] == p,
    decreases n,
{
    if n == 0 {
        assert(s.take(0) == Seq::<Cond>::empty());
        Seq::empty()
    } else {
        let prev = lemma_kept_positions(s, f, n - 1);
        assert(s.take(n).subrange(0, n - 1) == s.take(n - 1));
        assert(s.take(n)[n - 1] == s[n - 1]);
        if f[n - 1] {
            let pos = prev.push(n - 1);
            assert forall|p: int| 0 <= p < n && #[trigger] f[p] implies exists|m: int|
                0 <= m < pos.len() && pos[m] == p by {
                if p < n - 1 {
                    let m = choose|m: int| 0 <= m < prev.len() && prev[m] == p;
                    assert(pos[m] == p);
                } else {
                    assert(pos[prev.len() as int] == p);
                }
            }
            pos
        } else {
            assert forall|p: int| 0 <= p < n && #[trigger] f[p] implies exists|m: int|
                0 <= m < prev.len() && prev[m] == p by {
                assert(p < n - 1);
            }
            prev
        }
    }
}

proof fn lemma_kept_all(s: Seq<Cond>, f: Seq<bool>, n: int)
    requires
        f.len() == s.len(),
        0 <= n <= s.len(),
        forall|i: int| 0 <= i < s.len() ==> #[trigger] f[i],
    ensures
        kept(s.take(n), f) == s.take(n),
    decreases n,
{
    if n == 0 {
        assert(s.take(0) == Seq::<Cond>::empty());
    } else {
        lemma_kept_all(s, f, n - 1);
        assert(s.take(n).subrange(0, n - 1) == s.take(n - 1));
        assert(s.take(n - 1).push(s[n - 1]) == s.take(n));
    }
}

proof fn lemma_drop_repeats_no_repeats(s: Seq<Cond>)
    ensures
        no_repeats(drop_repeats(s)),
{
    let f = Seq::new(s.len(), |i: int| !repeats_earlier(s, i));
    assert(s.take(s.len() as int) == s);
    let pos = lemma_kept_positions(s, f, s.len() as int);
    let k = drop_repeats(s);
    assert forall|j: int, i: int| 0 <= j < i < k.len() implies !#[trigger] same_requirement(
        k[j],
        k[i],
    ) by {
        assert(pos[j] < pos[i]);
        assert(f[pos[i]]);
        assert(!repeats_earlier(s, pos[i]));
    }
}

proof fn lemma_kept_keeps_no_repeats(s: Seq<Cond>, f: Seq<bool>)
    requires
        f.len() == s.len(),
        no_repeats(s),
    ensures
        no_repeats(kept(s, f)),
{
    assert(s.take(s.len() as int) == s);
    let pos = lemma_kept_positions(s, f, s.len() as int);
    let k = kept(s, f);
    assert forall|j: int, i: int| 0 <= j < i < k.len() implies !#[trigger] same_requirement(
        k[j],
        k[i],
    ) by {
        assert(pos[j] < pos[i]);
    }
}

proof fn lemma_no_repeats_unchanged(s: Seq<Cond>)
    requires
        no_repeats(s),
    ensures
        drop_repeats(s) == s,
{
    let f = Seq::new(s.len(), |i: int| !repeats_earlier(s, i));
    assert forall|i: int| 0 <= i < s.len() implies #[trigger] f[i] by {
        if repeats_earlier(s, i) {
            let j = choose|j: int| 0 <= j < i && #[trigger] same_requirement(s[j], s[i]);
            assert(!same_requirement(s[j], s[i]));
        }
    }
    lemma_kept_all(s, f, s.len() as int);
    assert(s.take(s.len() as int) == s);
}

proof fn lemma_drop_absorbed_none_absorbed(s: Seq<Cond>)
    ensures
        none_absorbed(drop_absorbed(s)),
{
    let f = Seq::new(s.len(), |i: int| !absorbed(s[i], s));
    assert(s.take(s.len() as int) == s);
    let pos = lemma_kept_positions(s, f, s.len() as int);
    let a = drop_absorbed(s);
    assert forall|i: int| 0 <= i < a.len() implies !#[trigger] absorbed(a[i], a) by {
        assert(f[pos[i]]);
        assert(a[i] == s[pos[i]]);
        if absorbed(a[i], a) {
            let alts = a[i]->Or_0;
            let (k, m) = choose|k: int, m: int|
                #![trigger alts[k], a[m]]
                0 <= k < alts.len() && 0 <= m < a.len() && alts[k] is Owner && a[m] == alts[k];
            assert(a[m] == s[pos[m]]);
            assert(absorbed(s[pos[i]], s));
        }
    }
}

proof fn lemma_none_absorbed_unchanged(s: Seq<Cond>)
    requires
        none_absorbed(s),
    ensures
        drop_absorbed(s) == s,
{
    let f = Seq::new(s.len(), |i: int| !absorbed(s[i], s));
    lemma_kept_all(s, f, s.len() as int);
    assert(s.take(s.len() as int) == s);
}

/// Reducing a reduced requirement changes nothing.
pub proof fn lemma_reduce_idempotent(x: Cond)
    ensures
        reduced(reduced(x)) == reduced(x),
{
    match x {
        Cond::And(xs) => {
            let d = drop_repeats(xs);
            let a = drop_absorbed(d);
            lemma_drop_repeats_no_repeats(xs);
            lemma_kept_keeps_no_repeats(d, Seq::new(d.len(), |i: int| !absorbed(d[i], d)));
            lemma_no_repeats_unchanged(a);
            lemma_drop_absorbed_none_absorbed(d);
            lemma_none_absorbed_unchanged(a);
        },
        _ => {},
    }
}

/// Every `And` and `Or` node has at least two children.
pub open spec fn no_degenerate(c: Cond) -> bool
    decreases c,
{
    match c {
        Cond::Owner(_) => true,
        Cond::And(xs) => xs.len() >= 2 && all_no_degenerate(xs),
        Cond::Or(xs) => xs.len() >= 2 && all_no_degenerate(xs),
    }
}

pub open spec fn all_no_degenerate(xs: Seq<Cond>) -> bool
    decreases xs,
{
    xs.len() == 0 || (no_degenerate(xs[xs.len() - 1]) && all_no_degenerate(
        xs.subrange(0, xs.len() - 1),
    ))
}

/// Removing no owner gives the requirement back unchanged, when no `And` or
/// `Or` node in it has fewer than two children (removal collapses a node with
/// one child into that child and drops an empty one).
pub proof fn lemma_remove_nothing(x: Cond)
    requires
        no_degenerate(x),
    ensures
        removed(x, Set::empty()) == Some(x),
    decreases x,
{
    match x {
        Cond::Owner(_) => {},
        Cond::And(xs) => {
            lemma_survivors_nothing(xs);
        },
        Cond::Or(xs) => {
            lemma_survivors_nothing(xs);
        },
    }
}

proof fn lemma_survivors_nothing(xs: Seq<Cond>)
    requires
        all_no_degenerate(xs),
    ensures
        survivors(xs, Set::empty()) == xs,
    decreases xs,
{
    if xs.len() > 0 {
        let front = xs.subrange(0, xs.len() - 1);
        lemma_survivors_nothing(front);
        lemma_remove_nothing(xs[xs.len() - 1]);
        assert(front.push(xs[xs.len() - 1]) == xs);
    }
}

fn same_tree(a: &OwnersConditional, b: &OwnersConditional) -> (r: bool)
    ensures
        r == (a@ == b@),
    decreases a,
{
    match a {
        OwnersConditional::Owner(x) => match b {
            OwnersConditional::Owner(y) => str_eq(x.as_str(), y.as_str()),
            _ => false,
        },
        OwnersConditional::And(xs) => match b {
            OwnersConditional::And(ys) => same_trees(xs, ys),
            _ => false,
        },
        OwnersConditional::Or(xs) => match b {
            OwnersConditional::Or(ys) => same_trees(xs, ys),
            _ => false,
        },
    }
}

fn same_trees(xs: &Vec<OwnersConditional>, ys: &Vec<OwnersConditional>) -> (r: bool)
    ensures
        r == (conds_of(xs@) == conds_of(ys@)),
    decreases xs,
{
    proof {
        lemma_conds_of(xs@);
        lemma_conds_of(ys@);
    }
    if xs.len() != ys.len() {
        return false;
    }
    let mut k: usize = 0;
    while k < xs.len()
        invariant
            k <= xs@.len(),
            xs@.len() == ys@.len(),
            conds_of(xs@).len() == xs@.len(),
            conds_of(ys@).len() == ys@.len(),
            forall|i: int| 0 <= i < xs@.len() ==> #[trigger] conds_of(xs@)[i] == xs@[i]@,
            forall|i: int| 0 <= i < ys@.len() ==> #[trigger] conds_of(ys@)[i] == ys@[i]@,
            forall|i: int| 0 <= i < k ==> #[trigger] conds_of(xs@)[i] == conds_of(ys@)[i],
        decreases xs@.len() - k,
    {
        if !same_tree(&xs[k], &ys[k]) {
            assert(conds_of(xs@)[k as int] != conds_of(ys@)[k as int]);
            return false;
        }
        k = k + 1;
    }
    assert(conds_of(xs@) == conds_of(ys@));
    true
}

impl PartialEq for OwnersConditional {
    fn eq(&self, other: &OwnersConditional) -> (r: bool) {
        same_tree(self, other)
    }
}

impl vstd::std_specs::cmp::PartialEqSpecImpl for OwnersConditional {
    open spec fn obeys_eq_spec() -> bool {
        true
    }

    open spec fn eq_spec(&self, other: &OwnersConditional) -> bool {
        self@ == other@
    }
}

proof fn lemma_insert_all(base: Seq<Seq<char>>, xs: Seq<Seq<char>>)
    requires
        strictly_ascending(base),
    ensures
        strictly_ascending(insert_all(base, xs)),
        forall|y: Seq<char>| #[trigger]
            insert_all(base, xs).contains(y) <==> base.contains(y) || xs.contains(y),
    decreases xs.len(),
{
    if xs.len() > 0 {
        let front = xs.subrange(0, xs.len() - 1);
        let last = xs[xs.len() - 1];
        lemma_insert_all(base, front);
        lemma_insert_sorted_ascending(insert_all(base, front), last);
        lemma_insert_sorted_elements(insert_all(base, front), last);
        assert forall|y: Seq<char>| #[trigger]
            insert_all(base, xs).contains(y) <==> base.contains(y) || xs.contains(y) by {
            if front.contains(y) {
                let m = choose|m: int| 0 <= m < front.len() && front[m] == y;
                assert(xs[m] == y);
            }
            if xs.contains(y) && y != last {
                let m = choose|m: int| 0 <= m < xs.len() && xs[m] == y;
                assert(m < xs.len() - 1);
                assert(front[m] == y);
            }
            if y == last {
                assert(xs[xs.len() - 1] == y);
            }
        }
    }
}

/// The changed files are taken in a fixed order whatever order they come in:
/// each distinct path once, in strictly ascending order.
pub proof fn lemma_paths_ascending_and_distinct(files: Seq<Seq<char>>)
    ensures
        strictly_ascending(sorted_distinct(files)),
        forall|y: Seq<char>| #[trigger] sorted_distinct(files).contains(y) <==> files.contains(y),
{
    lemma_insert_all(Seq::empty(), files);
}

/// Whether the owners in `approved` satisfy the requirement: an owner by
/// approving, an `And` when all its children are, an `Or` when one is.
pub open spec fn satisfied(c: Cond, approved: Set<Seq<char>>) -> bool
    decreases c,
{
    match c {
        Cond::Owner(n) => approved.contains(n),
        Cond::And(xs) => all_satisfied(xs, approved),
        Cond::Or(xs) => any_satisfied(xs, approved),
    }
}

pub open spec fn all_satisfied(xs: Seq<Cond>, approved: Set<Seq<char>>) -> bool
    decreases xs,
{
    xs.len() == 0 || (satisfied(xs[xs.len() - 1], approved) && all_satisfied(
        xs.subrange(0, xs.len() - 1),
        approved,
    ))
}

pub open spec fn any_satisfied(xs: Seq<Cond>, approved: Set<Seq<char>>) -> bool
    decreases xs,
{
    xs.len() > 0 && (satisfied(xs[xs.len() - 1], approved) || any_satisfied(
        xs.subrange(0, xs.len() - 1),
        approved,
    ))
}

proof fn lemma_all_satisfied(xs: Seq<Cond>, approved: Set<Seq<char>>)
    ensures
        all_satisfied(xs, approved) <==> forall|i: int|
            0 <= i < xs.len() ==> satisfied(#[trigger] xs[i], approved),
    decreases xs.len(),
{
    if xs.len() > 0 {
        let front = xs.subrange(0, xs.len() - 1);
        lemma_all_satisfied(front, approved);
        if forall|i: int| 0 <= i < xs.len() ==> satisfied(#[trigger] xs[i], approved) {
            assert forall|i: int| 0 <= i < front.len() implies satisfied(#[trigger] front[i], approved) by {
                assert(front[i] == xs[i]);
            }
        }
        if all_satisfied(xs, approved) {
            assert forall|i: int| 0 <= i < xs.len() implies satisfied(#[trigger] xs[i], approved) by {
                if i < xs.len() - 1 {
                    assert(front[i] == xs[i]);
                }
            }
        }
    }
}

proof fn lemma_any_satisfied(xs: Seq<Cond>, approved: Set<Seq<char>>)
    ensures
        any_satisfied(xs, approved) <==> exists|i: int|
            0 <= i < xs.len() && satisfied(#[trigger] xs[i], approved),
    decreases xs.len(),
{
    if xs.len() > 0 {
        let front = xs.subrange(0, xs.len() - 1);
        lemma_any_satisfied(front, approved);
        if any_satisfied(front, approved) {
            let i = choose|i: int| 0 <= i < front.len() && satisfied(#[trigger] front[i], approved);
            assert(xs[i] == front[i]);
        }
        if exists|i: int| 0 <= i < xs.len() && satisfied(#[trigger] xs[i], approved) {
            let i = choose|i: int| 0 <= i < xs.len() && satisfied(#[trigger] xs[i], approved);
            if i < xs.len() - 1 {
                assert(front[i] == xs[i]);
            }
        }
    }
}

proof fn lemma_has_match_witness(x: Cond, ys: Seq<Cond>)
    requires
        has_match(x, ys),
    ensures
        exists|j: int| 0 <= j < ys.len() && #[trigger] same_requirement(x, ys[j]),
    decreases ys.len(),
{
    let front = ys.subrange(0, ys.len() - 1);
    if !same_requirement(x, ys[ys.len() - 1]) {
        lemma_has_match_witness(x, front);
        let j = choose|j: int| 0 <= j < front.len() && #[trigger] same_requirement(x, front[j]);
        assert(ys[j] == front[j]);
    }
}

proof fn lemma_is_matched_witness(xs: Seq<Cond>, y: Cond)
    requires
        is_matched(xs, y),
    ensures
        exists|i: int| 0 <= i < xs.len() && #[trigger] same_requirement(xs[i], y),
    decreases xs.len(),
{
    let front = xs.subrange(0, xs.len() - 1);
    if !same_requirement(xs[xs.len() - 1], y) {
        lemma_is_matched_witness(front, y);
        let i = choose|i: int| 0 <= i < front.len() && #[trigger] same_requirement(front[i], y);
        assert(xs[i] == front[i]);
    }
}

proof fn lemma_all_matched_each(xs: Seq<Cond>, ys: Seq<Cond>)
    requires
        all_matched(xs, ys),
    ensures
        forall|i: int| 0 <= i < xs.len() ==> #[trigger] has_match(xs[i], ys),
    decreases xs.len(),
{
    if xs.len() > 0 {
        let front = xs.subrange(0, xs.len() - 1);
        lemma_all_matched_each(front, ys);
        assert forall|i: int| 0 <= i < xs.len() implies #[trigger] has_match(xs[i], ys) by {
            if i < xs.len() - 1 {
                assert(front[i] == xs[i]);
            }
        }
    }
}

proof fn lemma_all_matched_back_each(xs: Seq<Cond>, ys: Seq<Cond>)
    requires
        all_matched_back(xs, ys),
    ensures
        forall|j: int| 0 <= j < ys.len() ==> #[trigger] is_matched(xs, ys[j]),
    decreases ys.len(),
{
    if ys.len() > 0 {
        let front = ys.subrange(0, ys.len() - 1);
        lemma_all_matched_back_each(xs, front);
        assert forall|j: int| 0 <= j < ys.len() implies #[trigger] is_matched(xs, ys[j]) by {
            if j < ys.len() - 1 {
                assert(front[j] == ys[j]);
            }
        }
    }
}

/// The same requirement is satisfied by the same approvals.
proof fn lemma_same_requirement_satisfied(a: Cond, b: Cond, approved: Set<Seq<char>>)
    requires
        same_requirement(a, b),
    ensures
        satisfied(a, approved) == satisfied(b, approved),
    decreases a,
{
    match a {
        Cond::Owner(_) => {},
        Cond::And(xs) => {
            let ys = b->And_0;
            lemma_all_matched_each(xs, ys);
            lemma_all_matched_back_each(xs, ys);
            lemma_all_satisfied(xs, approved);
            lemma_all_satisfied(ys, approved);
            if all_satisfied(xs, approved) {
                assert forall|j: int| 0 <= j < ys.len() implies satisfied(
                    #[trigger] ys[j],
                    approved,
                ) by {
                    assert(is_matched(xs, ys[j]));
                    lemma_is_matched_witness(xs, ys[j]);
                    let i = choose|i: int| 0 <= i < xs.len() && #[trigger] same_requirement(xs[i], ys[j]);
                    lemma_same_requirement_satisfied(xs[i], ys[j], approved);
                }
            }
            if all_satisfied(ys, approved) {
                assert forall|i: int| 0 <= i < xs.len() implies satisfied(
                    #[trigger] xs[i],
                    approved,
                ) by {
                    assert(has_match(xs[i], ys));
                    lemma_has_match_witness(xs[i], ys);
                    let j = choose|j: int| 0 <= j < ys.len() && #[trigger] same_requirement(xs[i], ys[j]);
                    lemma_same_requirement_satisfied(xs[i], ys[j], approved);
                }
            }
        },
        Cond::Or(xs) => {
            let ys = b->Or_0;
            lemma_all_matched_each(xs, ys);
            lemma_all_matched_back_each(xs, ys);
            lemma_any_satisfied(xs, approved);
            lemma_any_satisfied(ys, approved);
            if any_satisfied(xs, approved) {
                let i = choose|i: int| 0 <= i < xs.len() && satisfied(#[trigger] xs[i], approved);
                assert(has_match(xs[i], ys));
                lemma_has_match_witness(xs[i], ys);
                let j = choose|j: int| 0 <= j < ys.len() && #[trigger] same_requirement(xs[i], ys[j]);
                lemma_same_requirement_satisfied(xs[i], ys[j], approved);
                assert(satisfied(ys[j], approved));
            }
            if any_satisfied(ys, approved) {
                let j = choose|j: int| 0 <= j < ys.len() && satisfied(#[trigger] ys[j], approved);
                assert(is_matched(xs, ys[j]));
                lemma_is_matched_witness(xs, ys[j]);
                let i = choose|i: int| 0 <= i < xs.len() && #[trigger] same_requirement(xs[i], ys[j]);
                lemma_same_requirement_satisfied(xs[i], ys[j], approved);
                assert(satisfied(xs[i], approved));
            }
        },
    }
}

/// Each child that repeats an earlier one is satisfied exactly when some
/// first occurrence at or before it is.
proof fn lemma_first_occurrence_stands_for(xs: Seq<Cond>, approved: Set<Seq<char>>, i: int)
    requires
        0 <= i < xs.len(),
    ensures
        exists|p: int|
            0 <= p <= i && !repeats_earlier(xs, p) && satisfied(#[trigger] xs[p], approved)
                == satisfied(xs[i], approved),
    decreases i,
{
    if repeats_earlier(xs, i) {
        let j = choose|j: int| 0 <= j < i && #[trigger] same_requirement(xs[j], xs[i]);
        lemma_same_requirement_satisfied(xs[j], xs[i], approved);
        lemma_first_occurrence_stands_for(xs, approved, j);
    } else {
        assert(satisfied(xs[i], approved) == satisfied(xs[i], approved));
    }
}

proof fn lemma_drop_repeats_satisfied(xs: Seq<Cond>, approved: Set<Seq<char>>)
    ensures
        all_satisfied(drop_repeats(xs), approved) == all_satisfied(xs, approved),
{
    let f = Seq::new(xs.len(), |i: int| !repeats_earlier(xs, i));
    assert(xs.take(xs.len() as int) == xs);
    let pos = lemma_kept_positions(xs, f, xs.len() as int);
    let d = drop_repeats(xs);
    lemma_all_satisfied(d, approved);
    lemma_all_satisfied(xs, approved);
    if all_satisfied(d, approved) {
        assert forall|i: int| 0 <= i < xs.len() implies satisfied(#[trigger] xs[i], approved) by {
            lemma_first_occurrence_stands_for(xs, approved, i);
            let p = choose|p: int|
                0 <= p <= i && !repeats_earlier(xs, p) && satisfied(#[trigger] xs[p], approved)
                    == satisfied(xs[i], approved);
            assert(f[p]);
            let m = choose|m: int| 0 <= m < pos.len() && pos[m] == p;
            assert(d[m] == xs[p]);
        }
    }
    if all_satisfied(xs, approved) {
        assert forall|m: int| 0 <= m < d.len() implies satisfied(#[trigger] d[m], approved) by {
            assert(d[m] == xs[pos[m]]);
        }
    }
}

proof fn lemma_drop_absorbed_satisfied(d: Seq<Cond>, approved: Set<Seq<char>>)
    ensures
        all_satisfied(drop_absorbed(d), approved) == all_satisfied(d, approved),
{
    let g = Seq::new(d.len(), |i: int| !absorbed(d[i], d));
    assert(d.take(d.len() as int) == d);
    let pos = lemma_kept_positions(d, g, d.len() as int);
    let a = drop_absorbed(d);
    lemma_all_satisfied(a, approved);
    lemma_all_satisfied(d, approved);
    if all_satisfied(a, approved) {
        assert forall|i: int| 0 <= i < d.len() implies satisfied(#[trigger] d[i], approved) by {
            if g[i] {
                let m = choose|m: int| 0 <= m < pos.len() && pos[m] == i;
                assert(a[m] == d[i]);
            } else {
                let alts = d[i]->Or_0;
                let (k, m) = choose|k: int, m: int|
                    #![trigger alts[k], d[m]]
                    0 <= k < alts.len() && 0 <= m < d.len() && alts[k] is Owner && d[m] == alts[k];
                assert(g[m]);
                let m2 = choose|m2: int| 0 <= m2 < pos.len() && pos[m2] == m;
                assert(a[m2] == d[m]);
                assert(satisfied(alts[k], approved));
                lemma_any_satisfied(alts, approved);
            }
        }
    }
    if all_satisfied(d, approved) {
        assert forall|m: int| 0 <= m < a.len() implies satisfied(#[trigger] a[m], approved) by {
            assert(a[m] == d[pos[m]]);
        }
    }
}

/// Reduction keeps the meaning: a set of approvals satisfies the reduced
/// requirement exactly when it satisfies the requirement.
pub proof fn lemma_reduce_preserves_meaning(x: Cond, approved: Set<Seq<char>>)
    ensures
        satisfied(reduced(x), approved) == satisfied(x, approved),
{
    match x {
        Cond::And(xs) => {
            lemma_drop_repeats_satisfied(xs, approved);
            lemma_drop_absorbed_satisfied(drop_repeats(xs), approved);
        },
        _ => {},
    }
}

/// A file is cleared when it has no owners to ask, or one of its owners
/// approved.
pub open spec fn file_cleared(owners: Option<Seq<Seq<char>>>, approved: Set<Seq<char>>) -> bool {
    match owners {
        Some(os) => os.len() == 0 || exists|k: int| 0 <= k < os.len() && approved.contains(#[trigger] os[k]),
        None => true,
    }
}

proof fn lemma_contribution_satisfied(owners: Option<Seq<Seq<char>>>, approved: Set<Seq<char>>)
    ensures
        contribution(owners) is None ==> file_cleared(owners, approved),
        contribution(owners) matches Some(c) ==> satisfied(c, approved) == file_cleared(owners, approved),
{
    if let Some(os) = owners {
        let s = sorted_distinct(os);
        lemma_insert_all(Seq::empty(), os);
        assert(!Seq::<Seq<char>>::empty().contains(os[0]));
        if os.len() > 0 {
            assert(os.contains(os[0]));
            assert(s.contains(os[0]));
        }
        if file_cleared(owners, approved) && os.len() > 0 {
            let k = choose|k: int| 0 <= k < os.len() && approved.contains(#[trigger] os[k]);
            assert(os.contains(os[k]));
            assert(s.contains(os[k]));
            let i = choose|i: int| 0 <= i < s.len() && s[i] == os[k];
            if s.len() > 1 {
                let alts = s.map_values(|n: Seq<char>| Cond::Owner(n));
                lemma_any_satisfied(alts, approved);
                assert(satisfied(alts[i], approved));
            }
        }
        if s.len() > 0 {
            let alts = s.map_values(|n: Seq<char>| Cond::Owner(n));
            lemma_any_satisfied(alts, approved);
            if contribution(owners) matches Some(c) && satisfied(c, approved) {
                let i: int = if s.len() == 1 {
                    0
                } else {
                    choose|i: int| 0 <= i < alts.len() && satisfied(#[trigger] alts[i], approved)
                };
                assert(approved.contains(s[i]));
                assert(s.contains(s[i]));
                assert(os.contains(s[i]));
                let k = choose|k: int| 0 <= k < os.len() && os[k] == s[i];
                assert(approved.contains(os[k]));
            }
        }
    }
}

proof fn lemma_contributions_satisfied(
    m: Seq<(Seq<char>, Option<Seq<Seq<char>>>)>,
    approved: Set<Seq<char>>,
)
    ensures
        all_satisfied(contributions(m), approved) <==> forall|i: int|
            0 <= i < m.len() ==> file_cleared(#[trigger] m[i].1, approved),
    decreases m.len(),
{
    if m.len() > 0 {
        let front = m.subrange(0, m.len() - 1);
        let prev = contributions(front);
        lemma_contributions_satisfied(front, approved);
        lemma_contribution_satisfied(m[m.len() - 1].1, approved);
        if let Some(c) = contribution(m[m.len() - 1].1) {
            assert(prev.push(c).subrange(0, prev.len() as int) == prev);
        }
        assert((forall|i: int| 0 <= i < m.len() ==> file_cleared(#[trigger] m[i].1, approved)) <==> (
        file_cleared(m[m.len() - 1].1, approved) && forall|i: int|
            0 <= i < front.len() ==> file_cleared(#[trigger] front[i].1, approved))) by {
            assert forall|i: int| 0 <= i < front.len() implies front[i] == m[i] by {}
        }
    }
}

/// What a built requirement means: a set of approvals satisfies it exactly
/// when every changed file that has owners has the approval of one of them.
pub proof fn lemma_requirement_meaning(
    rules: Seq<RuleModel>,
    files: Seq<Seq<char>>,
    approved: Set<Seq<char>>,
)
    ensures
        satisfied(requirement_of(rules, files), approved) <==> forall|f: Seq<char>|
            #[trigger] files.contains(f) ==> file_cleared(owners_of(rules, f), approved),
{
    let m = owners_map_of(rules, files);
    let sorted = sorted_distinct(files);
    lemma_contributions_satisfied(m, approved);
    lemma_paths_ascending_and_distinct(files);
    if satisfied(requirement_of(rules, files), approved) {
        assert forall|f: Seq<char>| #[trigger] files.contains(f) implies file_cleared(
            owners_of(rules, f),
            approved,
        ) by {
            assert(sorted.contains(f));
            let i = choose|i: int| 0 <= i < sorted.len() && sorted[i] == f;
            assert(m[i].1 == owners_of(rules, f));
        }
    }
    if forall|f: Seq<char>| #[trigger] files.contains(f) ==> file_cleared(owners_of(rules, f), approved) {
        assert forall|i: int| 0 <= i < m.len() implies file_cleared(#[trigger] m[i].1, approved) by {
            assert(sorted.contains(sorted[i]));
            assert(files.contains(sorted[i]));
        }
    }
}

} // verus!
