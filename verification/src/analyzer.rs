//! The target-resolution pass: anchor-id sanitization, the
//! per-candidate disambiguation counter, and the pre-order walk that
//! assigns every Target its unique anchor and registers its
//! identifiers in the target database.
use vstd::prelude::*;

use crate::nodes;
use crate::target_database;
use crate::text;

verus! {

/// Every character outside the HTML5-safe id class becomes a dash.
pub open spec fn spec_clean_id(s: Seq<char>) -> Seq<char> {
    s.map(
        |i: int, c: char|
            if text::is_id_char(c) {
                c
            } else {
                '-'
            },
    )
}

/// A sanitized id, with the literal fallback for an empty input (the
/// cleaning keeps the length, so only an empty input cleans to empty).
pub open spec fn spec_html5_id(s: Seq<char>) -> Seq<char> {
    if s.len() == 0 {
        "unnamed"@
    } else {
        spec_clean_id(s)
    }
}

/// Turns an identifier into a valid HTML5 element id.
pub fn make_html5_id(orig: &str) -> (r: String)
    ensures
        r@ == spec_html5_id(orig@),
{
    let n = orig.unicode_len();
    if n == 0 {
        let r = String::from_str("unnamed");
        return r;
    }
    let mut out = String::new();
    let mut i: usize = 0;
    while i < n
        invariant
            0 <= i <= n,
            n == orig@.len(),
            out@.len() == i,
            forall|j: int|
                0 <= j < i ==> out@[j] == (if text::is_id_char(#[trigger] orig@[j]) {
                    orig@[j]
                } else {
                    '-'
                }),
        decreases n - i,
    {
        let c = orig.get_char(i);
        let ok = ('a' <= c && c <= 'z') || ('A' <= c && c <= 'Z') || ('0' <= c && c <= '9') || c
            == '_' || c == '.' || c == '-';
        if ok {
            text::push_char(&mut out, c);
        } else {
            text::push_char(&mut out, '-');
        }
        i = i + 1;
    }
    assert(out@ =~= spec_clean_id(orig@));
    out
}

/// The representative of a non-empty identifier list: the longest,
/// the earliest of equally long ones.
pub open spec fn spec_pick_longest(ts: Seq<Seq<char>>) -> Seq<char>
    recommends
        ts.len() >= 1,
    decreases ts,
{
    if ts.len() <= 1 {
        ts[0]
    } else {
        let p = spec_pick_longest(ts.drop_last());
        if ts.last().len() > p.len() {
            ts.last()
        } else {
            p
        }
    }
}

/// The pick is one of the entries, no entry is longer, and every
/// earlier entry is strictly shorter: the earliest longest wins.
pub proof fn lemma_pick_longest_earliest(ts: Seq<Seq<char>>)
    requires
        ts.len() >= 1,
    ensures
        exists|i: int|
            {
                &&& 0 <= i < ts.len()
                &&& #[trigger] ts[i] == spec_pick_longest(ts)
                &&& forall|j: int| 0 <= j < i ==> (#[trigger] ts[j]).len() < spec_pick_longest(ts).len()
            },
        forall|j: int| 0 <= j < ts.len() ==> (#[trigger] ts[j]).len() <= spec_pick_longest(ts).len(),
    decreases ts,
{
    if ts.len() == 1 {
        assert(ts[0] == spec_pick_longest(ts));
    } else {
        lemma_pick_longest_earliest(ts.drop_last());
        let d = ts.drop_last();
        let p = spec_pick_longest(d);
        let wit = choose|i: int|
            {
                &&& 0 <= i < d.len()
                &&& #[trigger] d[i] == p
                &&& forall|j: int| 0 <= j < i ==> (#[trigger] d[j]).len() < p.len()
            };
        assert(forall|j: int| 0 <= j < d.len() ==> #[trigger] ts[j] == d[j]);
        if ts.last().len() > p.len() {
            let n = ts.len() - 1;
            assert(ts[n] == spec_pick_longest(ts));
            assert forall|j: int| 0 <= j < n implies (#[trigger] ts[j]).len() < spec_pick_longest(
                ts,
            ).len() by {
                assert(d[j].len() <= p.len());
            }
        } else {
            assert(ts[wit] == spec_pick_longest(ts));
        }
    }
}

/// Picks the representative from a non-empty identifier list.
pub fn pick_longest(ts: &Vec<String>) -> (r: String)
    requires
        ts.len() >= 1,
    ensures
        r@ == spec_pick_longest(ts.deep_view()),
{
    let ghost tdv = ts.deep_view();
    let mut best: String = ts[0].clone();
    let mut best_len = best.as_str().unicode_len();
    let mut i: usize = 1;
    assert(tdv.take(1).len() == 1 && tdv.take(1)[0] == ts@[0]@);
    assert(best@ == spec_pick_longest(tdv.take(1)));
    while i < ts.len()
        invariant
            1 <= i <= ts.len(),
            tdv == ts.deep_view(),
            tdv.len() == ts@.len(),
            forall|j: int| 0 <= j < tdv.len() ==> #[trigger] tdv[j] == ts@[j]@,
            best@ == spec_pick_longest(tdv.take(i as int)),
            best_len == best@.len(),
        decreases ts.len() - i,
    {
        proof {
            assert(tdv.take(i + 1).drop_last() =~= tdv.take(i as int));
            assert(tdv.take(i + 1).last() == tdv[i as int]);
        }
        let l = ts[i].as_str().unicode_len();
        if l > best_len {
            best = ts[i].clone();
            best_len = l;
        }
        i = i + 1;
    }
    proof {
        assert(tdv.take(ts@.len() as int) =~= tdv);
    }
    best
}

/// The id issued for the `k`-th occurrence of a candidate: the
/// candidate itself first, then the candidate with a dash-and-numeral
/// suffix counting the prior occurrences.
pub open spec fn spec_assigned(c: Seq<char>, k: nat) -> Seq<char> {
    if k == 0 {
        c
    } else {
        text::with_counter(c, k)
    }
}

/// A saturating occurrence count; the cap is unreachable in any real
/// run, but keeps the counter total.
pub open spec fn sat_inc(k: u64) -> u64 {
    if k < u64::MAX {
        (k + 1) as u64
    } else {
        k
    }
}

pub open spec fn cnt_has(es: Seq<(String, u64)>, k: Seq<char>) -> bool {
    exists|i: int| 0 <= i < es.len() && es[i].0@ == k
}

pub open spec fn cnt_at(es: Seq<(String, u64)>, k: Seq<char>) -> int {
    choose|i: int| 0 <= i < es.len() && es[i].0@ == k
}

/// The counter's mathematical content: candidate to occurrence count.
pub open spec fn cnt_map(es: Seq<(String, u64)>) -> Map<Seq<char>, u64> {
    Map::new(|k: Seq<char>| cnt_has(es, k), |k: Seq<char>| es[cnt_at(es, k)].1)
}

/// How often a candidate has been seen, zero when never.
pub open spec fn spec_count(m: Map<Seq<char>, u64>, c: Seq<char>) -> u64 {
    if m.contains_key(c) {
        m[c]
    } else {
        0
    }
}

pub open spec fn cnt_keys_distinct(es: Seq<(String, u64)>) -> bool {
    forall|i: int, j: int|
        #![trigger es[i].0, es[j].0]
        0 <= i < j < es.len() ==> es[i].0@ != es[j].0@
}

proof fn lemma_cnt_at(es: Seq<(String, u64)>, i: int)
    requires
        cnt_keys_distinct(es),
        0 <= i < es.len(),
    ensures
        cnt_has(es, es[i].0@),
        cnt_at(es, es[i].0@) == i,
        cnt_map(es).contains_key(es[i].0@),
        cnt_map(es)[es[i].0@] == es[i].1,
{
    let k = es[i].0@;
    assert(cnt_has(es, k));
    let j = cnt_at(es, k);
    if j != i {
        if j < i {
            assert(es[j].0@ != es[i].0@);
        } else {
            assert(es[i].0@ != es[j].0@);
        }
        assert(false);
    }
}

proof fn lemma_cnt_update(es1: Seq<(String, u64)>, es2: Seq<(String, u64)>, i: int, v: u64)
    requires
        cnt_keys_distinct(es1),
        0 <= i < es1.len(),
        es2.len() == es1.len(),
        es2[i].0@ == es1[i].0@,
        es2[i].1 == v,
        forall|j: int| 0 <= j < es1.len() && j != i ==> es2[j] == #[trigger] es1[j],
    ensures
        cnt_keys_distinct(es2),
        cnt_map(es2) == cnt_map(es1).insert(es1[i].0@, v),
{
    let k0 = es1[i].0@;
    assert forall|a: int, b: int|
        #![trigger es2[a].0, es2[b].0]
        0 <= a < b < es2.len() implies es2[a].0@ != es2[b].0@ by {
        assert(es2[a].0@ == es1[a].0@);
        assert(es2[b].0@ == es1[b].0@);
        assert(es1[a].0@ != es1[b].0@);
    }
    let m1 = cnt_map(es1);
    let m2 = cnt_map(es2);
    let tgt = m1.insert(k0, v);
    lemma_cnt_at(es2, i);
    assert forall|k: Seq<char>| #[trigger] m2.contains_key(k) implies tgt.contains_key(k) && m2[k]
        == tgt[k] by {
        let j2 = cnt_at(es2, k);
        assert(0 <= j2 < es2.len() && es2[j2].0@ == k);
        lemma_cnt_at(es2, j2);
        if k == k0 {
            assert(j2 == i);
        } else {
            assert(j2 != i);
            assert(es2[j2] == es1[j2]);
            lemma_cnt_at(es1, j2);
        }
    }
    assert forall|k: Seq<char>| #[trigger] tgt.contains_key(k) implies m2.contains_key(k) by {
        if k == k0 {
            assert(es2[i].0@ == k);
            assert(cnt_has(es2, k));
        } else {
            let j1 = cnt_at(es1, k);
            assert(0 <= j1 < es1.len() && es1[j1].0@ == k);
            assert(j1 != i);
            assert(es2[j1] == es1[j1]);
            assert(cnt_has(es2, k));
        }
    }
    assert(m2 =~= tgt);
}

proof fn lemma_cnt_append(es1: Seq<(String, u64)>, es2: Seq<(String, u64)>, v: u64)
    requires
        cnt_keys_distinct(es1),
        es2.len() == es1.len() + 1,
        forall|j: int| 0 <= j < es1.len() ==> es2[j] == #[trigger] es1[j],
        es2.last().1 == v,
        !cnt_has(es1, es2.last().0@),
    ensures
        cnt_keys_distinct(es2),
        cnt_map(es2) == cnt_map(es1).insert(es2.last().0@, v),
{
    let n = es1.len() as int;
    let k0 = es2.last().0@;
    assert forall|a: int, b: int|
        #![trigger es2[a].0, es2[b].0]
        0 <= a < b < es2.len() implies es2[a].0@ != es2[b].0@ by {
        if b < n {
            assert(es2[a].0@ == es1[a].0@);
            assert(es2[b].0@ == es1[b].0@);
            assert(es1[a].0@ != es1[b].0@);
        } else {
            assert(es2[b].0@ == k0);
            assert(es2[a] == es1[a]);
            if es2[a].0@ == k0 {
                assert(cnt_has(es1, k0));
            }
        }
    }
    let m1 = cnt_map(es1);
    let m2 = cnt_map(es2);
    let tgt = m1.insert(k0, v);
    assert(!m1.contains_key(k0));
    lemma_cnt_at(es2, n);
    assert forall|k: Seq<char>| #[trigger] m2.contains_key(k) implies tgt.contains_key(k) && m2[k]
        == tgt[k] by {
        let j2 = cnt_at(es2, k);
        assert(0 <= j2 < es2.len() && es2[j2].0@ == k);
        lemma_cnt_at(es2, j2);
        if k == k0 {
            assert(j2 == n);
        } else {
            assert(j2 != n);
            assert(es2[j2] == es1[j2]);
            lemma_cnt_at(es1, j2);
        }
    }
    assert forall|k: Seq<char>| #[trigger] tgt.contains_key(k) implies m2.contains_key(k) by {
        if k == k0 {
            assert(es2[n].0@ == k);
            assert(cnt_has(es2, k));
        } else {
            let j1 = cnt_at(es1, k);
            assert(0 <= j1 < es1.len() && es1[j1].0@ == k);
            assert(es2[j1] == es1[j1]);
            assert(cnt_has(es2, k));
        }
    }
    assert(m2 =~= tgt);
}

/// The resolution pass's per-run state: the disambiguation counter and
/// the page being resolved.
pub struct TargetPass1 {
    pub counter: Vec<(String, u64)>,
    pub page: Option<nodes::FileId>,
}

impl View for TargetPass1 {
    type V = Map<Seq<char>, u64>;

    open spec fn view(&self) -> Map<Seq<char>, u64> {
        cnt_map(self.counter@)
    }
}

fn cnt_find(entries: &Vec<(String, u64)>, key: &String) -> (r: Option<usize>)
    ensures
        match r {
            Some(i) => 0 <= i < entries@.len() && entries@[i as int].0@ == key@,
            None => forall|j: int| 0 <= j < entries@.len() ==> (#[trigger] entries@[j].0)@ != key@,
        },
{
    let n = entries.len();
    let mut idx: usize = 0;
    while idx < n
        invariant
            0 <= idx <= n,
            n == entries@.len(),
            forall|j: int| 0 <= j < idx ==> (#[trigger] entries@[j].0)@ != key@,
        decreases n - idx,
    {
        if entries[idx].0 == *key {
            return Some(idx);
        }
        idx = idx + 1;
    }
    None
}

impl TargetPass1 {
    pub open spec fn wf(&self) -> bool {
        cnt_keys_distinct(self.counter@)
    }

    /// A fresh pass: no candidates seen, no page entered.
    pub fn new() -> (r: TargetPass1)
        ensures
            r.wf(),
            r@ =~= Map::<Seq<char>, u64>::empty(),
            r.page is None,
    {
        let r = TargetPass1 { counter: Vec::new(), page: None };
        proof {
            assert(forall|k: Seq<char>| !cnt_has(r.counter@, k));
        }
        r
    }

    /// Remembers which page's targets are being resolved.
    pub fn enter_page(&mut self, page: &nodes::Document)
        requires
            old(self).wf(),
        ensures
            final(self).wf(),
            final(self)@ == old(self)@,
            final(self).page matches Some(f) && f@ == page.filename@,
            final(self).counter == old(self).counter,
    {
        self.page = Some(page.filename.duplicate());
    }

    /// Issues the id for one candidate occurrence and counts it: the
    /// first occurrence keeps the candidate, later ones carry the
    /// count of prior occurrences as a dash-and-numeral suffix.
    pub fn assign(&mut self, candidate: &String) -> (id: String)
        requires
            old(self).wf(),
        ensures
            final(self).wf(),
            id@ == spec_assigned(candidate@, spec_count(old(self)@, candidate@) as nat),
            final(self)@ == old(self)@.insert(
                candidate@,
                sat_inc(spec_count(old(self)@, candidate@)),
            ),
            final(self).page == old(self).page,
    {
        let found = cnt_find(&self.counter, candidate);
        let ghost es1 = self.counter@;
        match found {
            Some(idx) => {
                proof {
                    lemma_cnt_at(es1, idx as int);
                }
                let k = self.counter[idx].1;
                let id = if k == 0 {
                    candidate.clone()
                } else {
                    let mut s = candidate.clone();
                    text::push_char(&mut s, '-');
                    let dec = text::u64_to_dec(k);
                    s.append(dec.as_str());
                    proof {
                        assert(s@ =~= text::with_counter(candidate@, k as nat));
                    }
                    s
                };
                let slot = &mut self.counter[idx];
                slot.1 = if slot.1 < u64::MAX {
                    slot.1 + 1
                } else {
                    slot.1
                };
                proof {
                    lemma_cnt_update(es1, self.counter@, idx as int, sat_inc(es1[idx as int].1));
                }
                id
            },
            None => {
                proof {
                    if cnt_has(es1, candidate@) {
                        let w = choose|i: int| 0 <= i < es1.len() && es1[i].0@ == candidate@;
                        assert(es1[w].0@ != candidate@);
                    }
                }
                let id = candidate.clone();
                self.counter.push((candidate.clone(), 1));
                proof {
                    lemma_cnt_append(es1, self.counter@, 1);
                }
                id
            },
        }
    }
}

/// The two pieces of state the resolution pass threads through a
/// walk: the disambiguation counter and the target database content.
pub ghost struct ResolveState {
    pub counter: Map<Seq<char>, u64>,
    pub db: Map<Seq<char>, Seq<target_database::LocalDefinitionV>>,
}

/// The representatives of a target's identifier children, in stored
/// order: for every TargetIdentifier child with a non-empty identifier
/// list, its longest identifier (earliest of ties). Children with an
/// empty list contribute nothing.
pub open spec fn identifier_reps(cs: Seq<nodes::NodeV>) -> Seq<Seq<char>>
    decreases cs,
{
    if cs.len() == 0 {
        Seq::empty()
    } else {
        identifier_reps(cs.drop_last()) + (match cs.last().data {
            nodes::NodeDataV::TargetIdentifier { ids } => if ids.len() > 0 {
                seq![spec_pick_longest(ids)]
            } else {
                Seq::empty()
            },
            _ => Seq::empty(),
        })
    }
}

/// The candidate anchor id of a target node: domain, name and the
/// sanitized seed (the longest representative), joined by dashes.
pub open spec fn target_candidate(t: nodes::TargetV, cs: Seq<nodes::NodeV>) -> Seq<char> {
    t.domain + seq!['-'] + t.name + seq!['-'] + spec_html5_id(
        spec_pick_longest(identifier_reps(cs)),
    )
}

/// Registers every identifier child of one target: each
/// TargetIdentifier child with identifiers contributes one definition
/// per identifier, carrying that child's own canonical name and its
/// children as title.
pub open spec fn register_identifiers(
    db: Map<Seq<char>, Seq<target_database::LocalDefinitionV>>,
    domain: Seq<char>,
    name: Seq<char>,
    cs: Seq<nodes::NodeV>,
    page: Seq<char>,
    id: Seq<char>,
) -> Map<Seq<char>, Seq<target_database::LocalDefinitionV>>
    decreases cs,
{
    if cs.len() == 0 {
        db
    } else {
        let db1 = register_identifiers(db, domain, name, cs.drop_last(), page, id);
        match cs.last().data {
            nodes::NodeDataV::TargetIdentifier { ids } => if ids.len() > 0 {
                target_database::spec_define_all(
                    db1,
                    domain,
                    name,
                    ids,
                    target_database::LocalDefinitionV {
                        canonical_name: target_database::spec_pick_most_dots(ids),
                        fileid: page,
                        title: cs.last().children,
                        html5_id: id,
                    },
                )
            } else {
                db1
            },
            _ => db1,
        }
    }
}

/// What visiting one node does to the pass state: a target node with
/// representatives draws an id from the counter and registers its
/// identifiers; every other node leaves the state alone.
pub open spec fn resolve_step_st(n: nodes::NodeV, st: ResolveState, page: Seq<char>) -> ResolveState {
    match n.data {
        nodes::NodeDataV::Target { target } => {
            if identifier_reps(n.children).len() > 0 {
                let cand = target_candidate(target, n.children);
                let id = spec_assigned(cand, spec_count(st.counter, cand) as nat);
                ResolveState {
                    counter: st.counter.insert(cand, sat_inc(spec_count(st.counter, cand))),
                    db: register_identifiers(st.db, target.domain, target.name, n.children, page, id),
                }
            } else {
                st
            }
        },
        _ => st,
    }
}

/// What visiting one node does to the node itself: a target node with
/// representatives gains its assigned anchor id; everything else is
/// untouched.
pub open spec fn resolve_step_data(n: nodes::NodeV, st: ResolveState) -> nodes::NodeDataV {
    match n.data {
        nodes::NodeDataV::Target { target } => {
            if identifier_reps(n.children).len() > 0 {
                let cand = target_candidate(target, n.children);
                let id = spec_assigned(cand, spec_count(st.counter, cand) as nat);
                nodes::NodeDataV::Target {
                    target: nodes::TargetV {
                        domain: target.domain,
                        name: target.name,
                        html_id: Some(id),
                        options: target.options,
                    },
                }
            } else {
                n.data
            }
        },
        _ => n.data,
    }
}

/// The pass state after a pre-order walk of one subtree.
pub open spec fn resolve_node_st(n: nodes::NodeV, st: ResolveState, page: Seq<char>) -> ResolveState
    decreases n,
{
    resolve_seq_st(n.children, resolve_step_st(n, st, page), page)
}

/// The pass state after walking a child list left to right.
pub open spec fn resolve_seq_st(cs: Seq<nodes::NodeV>, st: ResolveState, page: Seq<char>) -> ResolveState
    decreases cs,
{
    if cs.len() == 0 {
        st
    } else {
        resolve_node_st(cs.last(), resolve_seq_st(cs.drop_last(), st, page), page)
    }
}

/// One subtree after the pre-order walk starting in the given state.
pub open spec fn resolve_node_out(n: nodes::NodeV, st: ResolveState, page: Seq<char>) -> nodes::NodeV
    decreases n,
{
    nodes::NodeV {
        data: resolve_step_data(n, st),
        children: resolve_seq_out(n.children, resolve_step_st(n, st, page), page),
        line: n.line,
    }
}

/// A child list after the walk, each child seeing the state its left
/// siblings produced.
pub open spec fn resolve_seq_out(cs: Seq<nodes::NodeV>, st: ResolveState, page: Seq<char>) -> Seq<
    nodes::NodeV,
>
    decreases cs,
{
    if cs.len() == 0 {
        Seq::empty()
    } else {
        resolve_seq_out(cs.drop_last(), st, page).push(
            resolve_node_out(cs.last(), resolve_seq_st(cs.drop_last(), st, page), page),
        )
    }
}

/// Collects the representative of every identifier child, in order.
fn collect_identifier_reps(children: &Vec<nodes::Node>) -> (r: Vec<String>)
    ensures
        r.deep_view() == identifier_reps(nodes::children_v(children@)),
{
    let ghost cv = nodes::children_v(children@);
    proof {
        nodes::lemma_children_v(children@);
    }
    let mut r: Vec<String> = Vec::new();
    let mut i: usize = 0;
    while i < children.len()
        invariant
            0 <= i <= children@.len(),
            cv == nodes::children_v(children@),
            cv.len() == children@.len(),
            forall|j: int| 0 <= j < cv.len() ==> cv[j] == nodes::node_v(#[trigger] children@[j]),
            r.deep_view() == identifier_reps(cv.take(i as int)),
        decreases children@.len() - i,
    {
        proof {
            assert(cv.take(i + 1).drop_last() =~= cv.take(i as int));
            assert(cv.take(i + 1).last() == cv[i as int]);
        }
        let ghost prev_dv = r.deep_view();
        let c = &children[i];
        match &c.data {
            nodes::NodeData::TargetIdentifier(ti) => {
                if ti.ids.len() > 0 {
                    let rep = pick_longest(&ti.ids);
                    let ghost repv = rep@;
                    r.push(rep);
                    proof {
                        assert forall|j: int| 0 <= j < r.deep_view().len() implies #[trigger] r.deep_view()[j]
                            == prev_dv.push(repv)[j] by {
                            assert(r.deep_view()[j] == r@[j]@);
                        }
                        assert(r.deep_view() =~= prev_dv.push(repv));
                        assert(identifier_reps(cv.take(i + 1)) =~= prev_dv.push(repv));
                    }
                } else {
                    proof {
                        assert(identifier_reps(cv.take(i + 1)) =~= identifier_reps(
                            cv.take(i as int),
                        ));
                    }
                }
            },
            _ => {
                proof {
                    assert(identifier_reps(cv.take(i + 1)) =~= identifier_reps(cv.take(i as int)));
                }
            },
        }
        i = i + 1;
    }
    proof {
        assert(cv.take(children@.len() as int) =~= cv);
    }
    r
}

impl TargetPass1 {
    /// The per-target step: picks the anchor seed among the
    /// identifier children's representatives, assigns the
    /// disambiguated id, and registers every identifier. A target
    /// with no identifiers is returned untouched and registers
    /// nothing.
    pub fn enter_target(
        &mut self,
        t: nodes::Target,
        children: &Vec<nodes::Node>,
        page: &nodes::FileId,
        db: &mut target_database::TargetDatabase,
    ) -> (r: nodes::Target)
        requires
            old(self).wf(),
            old(db).wf(),
            nodes::has_file_name(page@),
        ensures
            final(self).wf(),
            final(db).wf(),
            final(self).page == old(self).page,
            ({
                let nv = nodes::NodeV {
                    data: nodes::NodeDataV::Target { target: nodes::target_v(t) },
                    children: nodes::children_v(children@),
                    line: 0,
                };
                let st0 = ResolveState { counter: old(self)@, db: old(db)@ };
                let st1 = resolve_step_st(nv, st0, page@);
                &&& final(self)@ == st1.counter
                &&& final(db)@ == st1.db
                &&& nodes::NodeDataV::Target { target: nodes::target_v(r) } == resolve_step_data(
                    nv,
                    st0,
                )
            }),
    {
        let ghost cv = nodes::children_v(children@);
        proof {
            nodes::lemma_children_v(children@);
        }
        let reps = collect_identifier_reps(children);
        if reps.len() == 0 {
            assert(identifier_reps(cv).len() == 0);
            return t;
        }
        assert(identifier_reps(cv).len() > 0);
        let seed = pick_longest(&reps);
        let clean = make_html5_id(seed.as_str());
        let mut cand = String::new();
        cand.append(t.domain.as_str());
        text::push_char(&mut cand, '-');
        cand.append(t.name.as_str());
        text::push_char(&mut cand, '-');
        cand.append(clean.as_str());
        proof {
            assert(cand@ =~= target_candidate(nodes::target_v(t), cv));
        }
        let id = self.assign(&cand);
        let ghost db0 = db@;
        let mut j: usize = 0;
        while j < children.len()
            invariant
                0 <= j <= children@.len(),
                cv == nodes::children_v(children@),
                cv.len() == children@.len(),
                forall|i2: int|
                    0 <= i2 < cv.len() ==> cv[i2] == nodes::node_v(#[trigger] children@[i2]),
                self.wf(),
                db.wf(),
                nodes::has_file_name(page@),
                db@ == register_identifiers(db0, t.domain@, t.name@, cv.take(j as int), page@, id@),
            decreases children@.len() - j,
        {
            proof {
                assert(cv.take(j + 1).drop_last() =~= cv.take(j as int));
                assert(cv.take(j + 1).last() == cv[j as int]);
            }
            let c = &children[j];
            match &c.data {
                nodes::NodeData::TargetIdentifier(ti) => {
                    if ti.ids.len() > 0 {
                        db.define_local_target(
                            t.domain.as_str(),
                            t.name.as_str(),
                            &ti.ids,
                            page,
                            &c.children,
                            id.as_str(),
                        );
                    }
                },
                _ => {},
            }
            j = j + 1;
        }
        proof {
            assert(cv.take(children@.len() as int) =~= cv);
        }
        nodes::Target { domain: t.domain, name: t.name, html_id: Some(id), options: t.options }
    }
}

impl TargetPass1 {
    /// Walks one subtree in pre-order: the node's own target step
    /// first, then its children left to right, threading the counter
    /// and database state through the walk.
    pub fn resolve_node(
        &mut self,
        node: nodes::Node,
        page: &nodes::FileId,
        db: &mut target_database::TargetDatabase,
    ) -> (r: nodes::Node)
        requires
            old(self).wf(),
            old(db).wf(),
            nodes::has_file_name(page@),
        ensures
            final(self).wf(),
            final(db).wf(),
            final(self).page == old(self).page,
            ({
                let st0 = ResolveState { counter: old(self)@, db: old(db)@ };
                &&& final(self)@ == resolve_node_st(nodes::node_v(node), st0, page@).counter
                &&& final(db)@ == resolve_node_st(nodes::node_v(node), st0, page@).db
                &&& nodes::node_v(r) == resolve_node_out(nodes::node_v(node), st0, page@)
            }),
        decreases node,
    {
        let ghost n0 = node;
        let ghost st0 = ResolveState { counter: self@, db: db@ };
        proof {
            nodes::lemma_children_v(n0.children@);
        }
        let nodes::Node { data, mut children, position } = node;
        let new_data = match data {
            nodes::NodeData::Target(t) => {
                let t2 = self.enter_target(t, &children, page, db);
                nodes::NodeData::Target(t2)
            },
            other => other,
        };
        let ghost st1 = resolve_step_st(nodes::node_v(n0), st0, page@);
        proof {
            assert(ResolveState { counter: self@, db: db@ } == st1);
            assert(nodes::data_v(new_data) == resolve_step_data(nodes::node_v(n0), st0));
        }
        let ghost cs = nodes::children_v(n0.children@);
        let ghost total = n0.children@.len();
        let ghost page0 = self.page;
        let mut out_children: Vec<nodes::Node> = Vec::new();
        proof {
            assert(cs.take(0).len() == 0);
            assert(nodes::children_v(out_children@) =~= resolve_seq_out(cs.take(0), st1, page@));
        }
        #[verifier::loop_isolation(false)]
        while children.len() > 0
            invariant
                total == n0.children@.len(),
                out_children@.len() + children@.len() == total,
                out_children@.len() <= total,
                children@ == n0.children@.skip(out_children@.len() as int),
                self.wf(),
                db.wf(),
                nodes::has_file_name(page@),
                self.page == page0,
                cs == nodes::children_v(n0.children@),
                cs.len() == total,
                forall|j: int|
                    0 <= j < cs.len() ==> cs[j] == nodes::node_v(#[trigger] n0.children@[j]),
                (ResolveState { counter: self@, db: db@ }) == resolve_seq_st(
                    cs.take(out_children@.len() as int),
                    st1,
                    page@,
                ),
                nodes::children_v(out_children@) == resolve_seq_out(
                    cs.take(out_children@.len() as int),
                    st1,
                    page@,
                ),
            decreases children@.len(),
        {
            let ghost i = out_children@.len() as int;
            let ghost stc = ResolveState { counter: self@, db: db@ };
            let ghost pre = children@;
            let c = children.remove(0);
            proof {
                assert(pre == n0.children@.skip(i));
                assert(pre[0] == n0.children@.skip(i)[0]);
                assert(n0.children@.skip(i)[0] == n0.children@[i + 0]);
                assert(c == n0.children@[i]);
                assert(children@ == pre.remove(0));
                assert(children@ =~= n0.children@.skip(i + 1));
                assert(decreases_to!(n0 => n0.children));
                assert(decreases_to!(n0.children => n0.children@));
                assert(decreases_to!(n0.children@ => n0.children@[i]));
                assert(decreases_to!(n0 => c));
            }
            let rc = self.resolve_node(c, page, db);
            let ghost prev_out = out_children@;
            out_children.push(rc);
            proof {
                assert(cs.take(i + 1).drop_last() =~= cs.take(i));
                assert(cs.take(i + 1).last() == cs[i]);
                assert(out_children@.drop_last() =~= prev_out);
                assert(nodes::children_v(out_children@) == nodes::children_v(prev_out).push(
                    nodes::node_v(rc),
                ));
                assert(resolve_seq_st(cs.take(i + 1), st1, page@) == resolve_node_st(
                    cs[i],
                    stc,
                    page@,
                ));
                assert(resolve_seq_out(cs.take(i + 1), st1, page@) == resolve_seq_out(
                    cs.take(i),
                    st1,
                    page@,
                ).push(resolve_node_out(cs[i], stc, page@)));
            }
        }
        proof {
            assert(cs.take(total as int) =~= cs);
        }
        nodes::Node { data: new_data, children: out_children, position }
    }
}

impl TargetPass1 {
    /// Runs the resolution pass over one document: enters the page,
    /// then walks its tree in pre-order, assigning anchor ids and
    /// registering definitions under the document's file id. Only the
    /// tree changes; every other document field is untouched.
    pub fn resolve_document(
        &mut self,
        doc: &mut nodes::Document,
        db: &mut target_database::TargetDatabase,
    )
        requires
            old(self).wf(),
            old(db).wf(),
            nodes::has_file_name(old(doc).filename@),
        ensures
            final(self).wf(),
            final(db).wf(),
            ({
                let st0 = ResolveState { counter: old(self)@, db: old(db)@ };
                let nv = nodes::node_v(old(doc).ast);
                let page = old(doc).filename@;
                &&& nodes::node_v(final(doc).ast) == resolve_node_out(nv, st0, page)
                &&& final(self)@ == resolve_node_st(nv, st0, page).counter
                &&& final(db)@ == resolve_node_st(nv, st0, page).db
            }),
            final(doc).page_id == old(doc).page_id,
            final(doc).filename == old(doc).filename,
            final(doc).source == old(doc).source,
            final(doc).static_assets == old(doc).static_assets,
            final(doc).facets == old(doc).facets,
            final(self).page matches Some(f) && f@ == old(doc).filename@,
    {
        self.enter_page(doc);
        let page = doc.filename.duplicate();
        let mut tmp = nodes::Node {
            data: nodes::NodeData::Comment,
            children: Vec::new(),
            position: nodes::Position { start: nodes::SourceInfo { line: 0 } },
        };
        core::mem::swap(&mut doc.ast, &mut tmp);
        let resolved = self.resolve_node(tmp, &page, db);
        doc.ast = resolved;
    }
}

/// Pointwise order on counter states: the second has seen every
/// candidate at least as often as the first.
pub open spec fn counter_le(a: Map<Seq<char>, u64>, b: Map<Seq<char>, u64>) -> bool {
    forall|c: Seq<char>| spec_count(a, c) <= #[trigger] spec_count(b, c)
}

/// The candidate-and-occurrence pair a node's own target step issues,
/// if any; `resolve_step_data` stores exactly `spec_assigned` of this
/// pair as the node's anchor id.
pub open spec fn step_pairs(n: nodes::NodeV, st: ResolveState) -> Seq<(Seq<char>, nat)> {
    match n.data {
        nodes::NodeDataV::Target { target } => {
            if identifier_reps(n.children).len() > 0 {
                let cand = target_candidate(target, n.children);
                seq![(cand, spec_count(st.counter, cand) as nat)]
            } else {
                Seq::empty()
            }
        },
        _ => Seq::empty(),
    }
}

/// Every candidate-and-occurrence pair a pre-order walk of one
/// subtree issues, in visit order.
pub open spec fn issued_by_node(n: nodes::NodeV, st: ResolveState, page: Seq<char>) -> Seq<
    (Seq<char>, nat),
>
    decreases n,
{
    step_pairs(n, st) + issued_by_seq(n.children, resolve_step_st(n, st, page), page)
}

pub open spec fn issued_by_seq(cs: Seq<nodes::NodeV>, st: ResolveState, page: Seq<char>) -> Seq<
    (Seq<char>, nat),
>
    decreases cs,
{
    if cs.len() == 0 {
        Seq::empty()
    } else {
        issued_by_seq(cs.drop_last(), st, page) + issued_by_node(
            cs.last(),
            resolve_seq_st(cs.drop_last(), st, page),
            page,
        )
    }
}

/// A walk only increases occurrence counts.
pub proof fn lemma_node_st_monotonic(n: nodes::NodeV, st: ResolveState, page: Seq<char>)
    ensures
        counter_le(st.counter, resolve_node_st(n, st, page).counter),
    decreases n,
{
    let st1 = resolve_step_st(n, st, page);
    assert forall|c: Seq<char>| spec_count(st.counter, c) <= #[trigger] spec_count(
        st1.counter,
        c,
    ) by {}
    lemma_seq_st_monotonic(n.children, st1, page);
    assert forall|c: Seq<char>| spec_count(st.counter, c) <= #[trigger] spec_count(
        resolve_node_st(n, st, page).counter,
        c,
    ) by {
        assert(spec_count(st.counter, c) <= spec_count(st1.counter, c));
        assert(spec_count(st1.counter, c) <= spec_count(resolve_node_st(n, st, page).counter, c));
    }
}

pub proof fn lemma_seq_st_monotonic(cs: Seq<nodes::NodeV>, st: ResolveState, page: Seq<char>)
    ensures
        counter_le(st.counter, resolve_seq_st(cs, st, page).counter),
    decreases cs,
{
    if cs.len() == 0 {
    } else {
        lemma_seq_st_monotonic(cs.drop_last(), st, page);
        let mid = resolve_seq_st(cs.drop_last(), st, page);
        lemma_node_st_monotonic(cs.last(), mid, page);
        assert forall|c: Seq<char>| spec_count(st.counter, c) <= #[trigger] spec_count(
            resolve_seq_st(cs, st, page).counter,
            c,
        ) by {
            assert(spec_count(st.counter, c) <= spec_count(mid.counter, c));
            assert(spec_count(mid.counter, c) <= spec_count(resolve_seq_st(cs, st, page).counter, c));
        }
    }
}

/// In a walk that never saturates a count, every issued pair's
/// occurrence lies between the count before the walk and the count
/// after it, and no pair is issued twice.
pub proof fn lemma_issued_node_ok(n: nodes::NodeV, st: ResolveState, page: Seq<char>)
    requires
        forall|c: Seq<char>| #[trigger] spec_count(resolve_node_st(n, st, page).counter, c)
            < u64::MAX,
    ensures
        forall|t: int|
            0 <= t < issued_by_node(n, st, page).len() ==> {
                let p = #[trigger] issued_by_node(n, st, page)[t];
                spec_count(st.counter, p.0) <= p.1 && p.1 < spec_count(
                    resolve_node_st(n, st, page).counter,
                    p.0,
                )
            },
        forall|t1: int, t2: int|
            0 <= t1 < t2 < issued_by_node(n, st, page).len() ==> #[trigger] issued_by_node(
                n,
                st,
                page,
            )[t1] != #[trigger] issued_by_node(n, st, page)[t2],
    decreases n,
{
    let st1 = resolve_step_st(n, st, page);
    let fin = resolve_node_st(n, st, page);
    let own = step_pairs(n, st);
    let rest = issued_by_seq(n.children, st1, page);
    let all = issued_by_node(n, st, page);
    lemma_seq_st_monotonic(n.children, st1, page);
    lemma_issued_seq_ok(n.children, st1, page);
    assert(all == own + rest);
    if own.len() > 0 {
        let cand = own[0].0;
        let k0 = own[0].1;
        assert(k0 == spec_count(st.counter, cand));
        assert(spec_count(st1.counter, cand) == sat_inc(spec_count(st.counter, cand)));
        assert(spec_count(st1.counter, cand) <= spec_count(fin.counter, cand));
        assert(spec_count(fin.counter, cand) < u64::MAX);
        assert(k0 < u64::MAX);
        assert(spec_count(st1.counter, cand) == k0 + 1);
    }
    assert forall|t: int| 0 <= t < all.len() implies {
        let p = #[trigger] all[t];
        spec_count(st.counter, p.0) <= p.1 && p.1 < spec_count(fin.counter, p.0)
    } by {
        if t < own.len() {
            let cand = own[0].0;
            assert(all[t] == own[0]);
            assert(spec_count(st1.counter, cand) <= spec_count(fin.counter, cand));
        } else {
            assert(all[t] == rest[t - own.len()]);
            let p = rest[t - own.len()];
            assert(spec_count(st1.counter, p.0) <= p.1 && p.1 < spec_count(fin.counter, p.0));
            assert(spec_count(st.counter, p.0) <= spec_count(st1.counter, p.0));
        }
    }
    assert forall|t1: int, t2: int| 0 <= t1 < t2 < all.len() implies #[trigger] all[t1]
        != #[trigger] all[t2] by {
        if t1 >= own.len() {
            assert(all[t1] == rest[t1 - own.len()]);
            assert(all[t2] == rest[t2 - own.len()]);
        } else {
            assert(all[t1] == own[0]);
            assert(all[t2] == rest[t2 - own.len()]);
            let p = own[0];
            let q = rest[t2 - own.len()];
            if p.0 == q.0 {
                assert(spec_count(st1.counter, q.0) <= q.1);
                assert(p.1 < spec_count(st1.counter, p.0));
            }
        }
    }
}

pub proof fn lemma_issued_seq_ok(cs: Seq<nodes::NodeV>, st: ResolveState, page: Seq<char>)
    requires
        forall|c: Seq<char>| #[trigger] spec_count(resolve_seq_st(cs, st, page).counter, c)
            < u64::MAX,
    ensures
        forall|t: int|
            0 <= t < issued_by_seq(cs, st, page).len() ==> {
                let p = #[trigger] issued_by_seq(cs, st, page)[t];
                spec_count(st.counter, p.0) <= p.1 && p.1 < spec_count(
                    resolve_seq_st(cs, st, page).counter,
                    p.0,
                )
            },
        forall|t1: int, t2: int|
            0 <= t1 < t2 < issued_by_seq(cs, st, page).len() ==> #[trigger] issued_by_seq(
                cs,
                st,
                page,
            )[t1] != #[trigger] issued_by_seq(cs, st, page)[t2],
    decreases cs,
{
    if cs.len() == 0 {
    } else {
        let mid = resolve_seq_st(cs.drop_last(), st, page);
        let fin = resolve_seq_st(cs, st, page);
        let pre = issued_by_seq(cs.drop_last(), st, page);
        let lastp = issued_by_node(cs.last(), mid, page);
        let all = issued_by_seq(cs, st, page);
        assert(fin == resolve_node_st(cs.last(), mid, page));
        lemma_seq_st_monotonic(cs.drop_last(), st, page);
        lemma_node_st_monotonic(cs.last(), mid, page);
        assert forall|c: Seq<char>| #[trigger] spec_count(mid.counter, c) < u64::MAX by {
            assert(spec_count(mid.counter, c) <= spec_count(fin.counter, c));
        }
        lemma_issued_seq_ok(cs.drop_last(), st, page);
        lemma_issued_node_ok(cs.last(), mid, page);
        assert(all == pre + lastp);
        assert forall|t: int| 0 <= t < all.len() implies {
            let p = #[trigger] all[t];
            spec_count(st.counter, p.0) <= p.1 && p.1 < spec_count(fin.counter, p.0)
        } by {
            if t < pre.len() {
                assert(all[t] == pre[t]);
                let p = pre[t];
                assert(spec_count(st.counter, p.0) <= p.1 && p.1 < spec_count(mid.counter, p.0));
                assert(spec_count(mid.counter, p.0) <= spec_count(fin.counter, p.0));
            } else {
                let tt = t - pre.len();
                assert(all[t] == lastp[tt]);
                assert(0 <= tt < issued_by_node(cs.last(), mid, page).len());
                let p = issued_by_node(cs.last(), mid, page)[tt];
                assert(spec_count(mid.counter, p.0) <= p.1);
                assert(p.1 < spec_count(resolve_node_st(cs.last(), mid, page).counter, p.0));
                assert(spec_count(st.counter, p.0) <= spec_count(mid.counter, p.0));
            }
        }
        assert forall|t1: int, t2: int| 0 <= t1 < t2 < all.len() implies #[trigger] all[t1]
            != #[trigger] all[t2] by {
            if t2 < pre.len() {
                assert(all[t1] == pre[t1]);
                assert(all[t2] == pre[t2]);
            } else if t1 >= pre.len() {
                assert(all[t1] == lastp[t1 - pre.len()]);
                assert(all[t2] == lastp[t2 - pre.len()]);
            } else {
                assert(all[t1] == pre[t1]);
                assert(all[t2] == lastp[t2 - pre.len()]);
                let p = pre[t1];
                let q = lastp[t2 - pre.len()];
                if p.0 == q.0 {
                    assert(p.1 < spec_count(mid.counter, p.0));
                    assert(spec_count(mid.counter, q.0) <= q.1);
                }
            }
        }
    }
}

/// In one single-threaded resolution walk whose counts never
/// saturate, and whose candidates are pairwise non-confusable, all
/// assigned anchor ids are pairwise distinct: the id issued for the
/// `t1`-th target differs from the id issued for the `t2`-th.
pub proof fn lemma_resolution_ids_distinct(n: nodes::NodeV, st: ResolveState, page: Seq<char>)
    requires
        forall|c: Seq<char>| #[trigger] spec_count(resolve_node_st(n, st, page).counter, c)
            < u64::MAX,
        forall|c1: Seq<char>, c2: Seq<char>|
            resolve_node_st(n, st, page).counter.contains_key(c1) && resolve_node_st(
                n,
                st,
                page,
            ).counter.contains_key(c2) ==> !confusable(c1, c2),
    ensures
        forall|t1: int, t2: int|
            0 <= t1 < t2 < issued_by_node(n, st, page).len() ==> spec_assigned(
                (#[trigger] issued_by_node(n, st, page)[t1]).0,
                issued_by_node(n, st, page)[t1].1,
            ) != spec_assigned(
                (#[trigger] issued_by_node(n, st, page)[t2]).0,
                issued_by_node(n, st, page)[t2].1,
            ),
{
    let all = issued_by_node(n, st, page);
    let fin = resolve_node_st(n, st, page);
    lemma_issued_node_ok(n, st, page);
    assert forall|t1: int, t2: int| 0 <= t1 < t2 < all.len() implies spec_assigned(
        (#[trigger] all[t1]).0,
        all[t1].1,
    ) != spec_assigned((#[trigger] all[t2]).0, all[t2].1) by {
        let p = all[t1];
        let q = all[t2];
        assert(p.1 < spec_count(fin.counter, p.0));
        assert(q.1 < spec_count(fin.counter, q.0));
        assert(fin.counter.contains_key(p.0));
        assert(fin.counter.contains_key(q.0));
        assert(p != q);
        if p.0 == q.0 {
            assert(p.1 != q.1);
        }
        lemma_issued_ids_distinct(p.0, p.1, q.0, q.1);
    }
}

/// Whether every target node in the tree is still unresolved, as
/// authored trees are before the pass runs.
pub open spec fn all_unresolved(n: nodes::NodeV) -> bool
    decreases n,
{
    &&& (match n.data {
        nodes::NodeDataV::Target { target } => target.html_id is None,
        _ => true,
    })
    &&& seq_all_unresolved(n.children)
}

pub open spec fn seq_all_unresolved(cs: Seq<nodes::NodeV>) -> bool
    decreases cs,
{
    if cs.len() == 0 {
        true
    } else {
        seq_all_unresolved(cs.drop_last()) && all_unresolved(cs.last())
    }
}

/// The anchor ids stored on target nodes, in pre-order.
pub open spec fn stored_target_ids(n: nodes::NodeV) -> Seq<Seq<char>>
    decreases n,
{
    (match n.data {
        nodes::NodeDataV::Target { target } => match target.html_id {
            Some(id) => seq![id],
            None => Seq::empty(),
        },
        _ => Seq::empty(),
    }) + stored_seq_ids(n.children)
}

pub open spec fn stored_seq_ids(cs: Seq<nodes::NodeV>) -> Seq<Seq<char>>
    decreases cs,
{
    if cs.len() == 0 {
        Seq::empty()
    } else {
        stored_seq_ids(cs.drop_last()) + stored_target_ids(cs.last())
    }
}

/// The ids the issued pairs stand for.
pub open spec fn pairs_to_ids(ps: Seq<(Seq<char>, nat)>) -> Seq<Seq<char>> {
    Seq::new(ps.len(), |i: int| spec_assigned(ps[i].0, ps[i].1))
}

/// On a tree whose targets start unresolved, the walk stores exactly
/// the issued ids, in visit order.
pub proof fn lemma_stored_ids_node(n: nodes::NodeV, st: ResolveState, page: Seq<char>)
    requires
        all_unresolved(n),
    ensures
        stored_target_ids(resolve_node_out(n, st, page)) == pairs_to_ids(
            issued_by_node(n, st, page),
        ),
    decreases n,
{
    let st1 = resolve_step_st(n, st, page);
    let out = resolve_node_out(n, st, page);
    lemma_stored_ids_seq(n.children, st1, page);
    let own_pairs = step_pairs(n, st);
    let rest_pairs = issued_by_seq(n.children, st1, page);
    assert(out.children == resolve_seq_out(n.children, st1, page));
    let own_ids = match out.data {
        nodes::NodeDataV::Target { target } => match target.html_id {
            Some(id) => seq![id],
            None => Seq::<Seq<char>>::empty(),
        },
        _ => Seq::<Seq<char>>::empty(),
    };
    assert(own_ids =~= pairs_to_ids(own_pairs));
    assert(stored_target_ids(out) == own_ids + stored_seq_ids(out.children));
    assert(pairs_to_ids(own_pairs + rest_pairs) =~= pairs_to_ids(own_pairs) + pairs_to_ids(
        rest_pairs,
    ));
    assert(stored_target_ids(out) =~= pairs_to_ids(issued_by_node(n, st, page)));
}

pub proof fn lemma_stored_ids_seq(cs: Seq<nodes::NodeV>, st: ResolveState, page: Seq<char>)
    requires
        seq_all_unresolved(cs),
    ensures
        stored_seq_ids(resolve_seq_out(cs, st, page)) == pairs_to_ids(issued_by_seq(cs, st, page)),
    decreases cs,
{
    if cs.len() == 0 {
        assert(stored_seq_ids(resolve_seq_out(cs, st, page)) =~= pairs_to_ids(
            issued_by_seq(cs, st, page),
        ));
    } else {
        let d = cs.drop_last();
        let mid = resolve_seq_st(d, st, page);
        lemma_stored_ids_seq(d, st, page);
        lemma_stored_ids_node(cs.last(), mid, page);
        let outs = resolve_seq_out(cs, st, page);
        assert(outs == resolve_seq_out(d, st, page).push(resolve_node_out(cs.last(), mid, page)));
        assert(outs.drop_last() =~= resolve_seq_out(d, st, page));
        assert(outs.last() == resolve_node_out(cs.last(), mid, page));
        assert(stored_seq_ids(outs) == stored_seq_ids(outs.drop_last()) + stored_target_ids(
            outs.last(),
        ));
        assert(pairs_to_ids(issued_by_seq(d, st, page) + issued_by_node(cs.last(), mid, page))
            =~= pairs_to_ids(issued_by_seq(d, st, page)) + pairs_to_ids(
            issued_by_node(cs.last(), mid, page),
        ));
    }
}

/// For all targets processed by one resolution walk over a tree whose
/// targets start unresolved, the anchor ids stored in the output tree
/// are pairwise distinct, provided the run never saturates a count
/// and no two of its candidates are confusable.
pub proof fn lemma_run_tree_ids_distinct(n: nodes::NodeV, st: ResolveState, page: Seq<char>)
    requires
        all_unresolved(n),
        forall|c: Seq<char>| #[trigger] spec_count(resolve_node_st(n, st, page).counter, c)
            < u64::MAX,
        forall|c1: Seq<char>, c2: Seq<char>|
            resolve_node_st(n, st, page).counter.contains_key(c1) && resolve_node_st(
                n,
                st,
                page,
            ).counter.contains_key(c2) ==> !confusable(c1, c2),
    ensures
        forall|t1: int, t2: int|
            0 <= t1 < t2 < stored_target_ids(resolve_node_out(n, st, page)).len()
                ==> #[trigger] stored_target_ids(resolve_node_out(n, st, page))[t1]
                != #[trigger] stored_target_ids(resolve_node_out(n, st, page))[t2],
{
    lemma_stored_ids_node(n, st, page);
    lemma_resolution_ids_distinct(n, st, page);
    let ids = stored_target_ids(resolve_node_out(n, st, page));
    let ps = issued_by_node(n, st, page);
    assert forall|t1: int, t2: int| 0 <= t1 < t2 < ids.len() implies #[trigger] ids[t1]
        != #[trigger] ids[t2] by {
        assert(ids[t1] == spec_assigned(ps[t1].0, ps[t1].1));
        assert(ids[t2] == spec_assigned(ps[t2].0, ps[t2].1));
    }
}

/// One candidate is confusable with another when it reads as that
/// other candidate followed by a dash-and-numeral suffix, the very
/// shape the disambiguator appends.
pub open spec fn confusable(c1: Seq<char>, c2: Seq<char>) -> bool {
    exists|n: nat| 1 <= n && c1 == text::with_counter(c2, n)
}

/// All anchor ids issued by one disambiguation counter are pairwise
/// distinct, provided no candidate is confusable with another: the
/// `k`-th id for one candidate differs from the `k2`-th id for any
/// other occurrence. A run that never saturates a count (no candidate
/// recurs `u64::MAX` times) issues exactly the ids this law covers.
/// The ids issued for two occurrences differ whenever the occurrences
/// do: different occurrences of one candidate get different numeral
/// suffixes, and two candidates neither of which reads as the other
/// plus a suffix can never produce the same id.
pub proof fn lemma_issued_ids_distinct(c1: Seq<char>, k1: nat, c2: Seq<char>, k2: nat)
    requires
        c1 == c2 ==> k1 != k2,
        c1 != c2 ==> !confusable(c1, c2) && !confusable(c2, c1),
    ensures
        spec_assigned(c1, k1) != spec_assigned(c2, k2),
{
    if k1 == 0 && k2 == 0 {
        assert(c1 != c2);
    } else if k1 == 0 {
        if spec_assigned(c1, k1) == spec_assigned(c2, k2) {
            if c1 == c2 {
                text::lemma_dec_len(k2);
                assert(spec_assigned(c2, k2).len() > c1.len());
            } else {
                assert(c1 == text::with_counter(c2, k2));
                assert(confusable(c1, c2));
            }
        }
    } else if k2 == 0 {
        if spec_assigned(c1, k1) == spec_assigned(c2, k2) {
            if c1 == c2 {
                text::lemma_dec_len(k1);
                assert(spec_assigned(c1, k1).len() > c2.len());
            } else {
                assert(c2 == text::with_counter(c1, k1));
                assert(confusable(c2, c1));
            }
        }
    } else {
        if spec_assigned(c1, k1) == spec_assigned(c2, k2) {
            text::lemma_with_counter_injective(c1, k1, c2, k2);
        }
    }
}

/// Over one whole counter state: every id the counter has issued (the
/// `k`-th occurrence of a candidate, for every `k` below its count)
/// differs from every other, provided no recorded candidate is
/// confusable with another.
pub proof fn lemma_assigned_ids_distinct(m: Map<Seq<char>, u64>)
    requires
        forall|c1: Seq<char>, c2: Seq<char>|
            m.contains_key(c1) && m.contains_key(c2) ==> !confusable(c1, c2),
    ensures
        forall|c1: Seq<char>, c2: Seq<char>, k1: nat, k2: nat|
            #![trigger spec_assigned(c1, k1), spec_assigned(c2, k2)]
            m.contains_key(c1) && m.contains_key(c2) && k1 < m[c1] && k2 < m[c2] && (c1 != c2 || k1
                != k2) ==> spec_assigned(c1, k1) != spec_assigned(c2, k2),
{
    assert forall|c1: Seq<char>, c2: Seq<char>, k1: nat, k2: nat|
        #![trigger spec_assigned(c1, k1), spec_assigned(c2, k2)]
        m.contains_key(c1) && m.contains_key(c2) && k1 < m[c1] && k2 < m[c2] && (c1 != c2 || k1
            != k2) implies spec_assigned(c1, k1) != spec_assigned(c2, k2) by {
        lemma_issued_ids_distinct(c1, k1, c2, k2);
    }
}

} // verus!
