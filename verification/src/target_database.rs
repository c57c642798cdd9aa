//! The target symbol table: normalized `domain:name:identifier` keys
//! mapped to the ordered list of definitions discovered for them.
use vstd::prelude::*;

use crate::nodes;
use crate::text;

verus! {

/// Target-key normalization: every run of whitespace collapses to one
/// space.
pub open spec fn spec_normalize(s: Seq<char>) -> Seq<char>
    decreases s,
{
    if s.len() == 0 {
        Seq::empty()
    } else {
        let p = spec_normalize(s.drop_last());
        if !text::is_space_char(s.last()) {
            p.push(s.last())
        } else if s.len() >= 2 && text::is_space_char(s[s.len() - 2]) {
            p
        } else {
            p.push(' ')
        }
    }
}

/// Normalizes a lookup or definition key so the two always match:
/// whitespace runs become single spaces.
pub fn normalize_target(target: &str) -> (r: String)
    ensures
        r@ == spec_normalize(target@),
{
    let n = target.unicode_len();
    let mut out = String::new();
    let mut i: usize = 0;
    while i < n
        invariant
            0 <= i <= n,
            n == target@.len(),
            out@ == spec_normalize(target@.take(i as int)),
        decreases n - i,
    {
        let c = target.get_char(i);
        let space = c == ' ' || c == '\t' || c == '\n' || c == '\r' || c == '\u{b}' || c
            == '\u{c}';
        let prev_space = if i == 0 {
            false
        } else {
            let p = target.get_char(i - 1);
            p == ' ' || p == '\t' || p == '\n' || p == '\r' || p == '\u{b}' || p == '\u{c}'
        };
        proof {
            assert(target@.take(i + 1).drop_last() =~= target@.take(i as int));
            assert(target@.take(i + 1).last() == target@[i as int]);
        }
        if !space {
            text::push_char(&mut out, c);
        } else if !prev_space {
            text::push_char(&mut out, ' ');
        }
        i = i + 1;
    }
    proof {
        assert(target@.take(n as int) =~= target@);
    }
    out
}

/// The number of dots in an identifier.
pub open spec fn spec_count_dots(s: Seq<char>) -> nat
    decreases s,
{
    if s.len() == 0 {
        0
    } else {
        spec_count_dots(s.drop_last()) + if s.last() == '.' {
            1nat
        } else {
            0nat
        }
    }
}

/// Counts the dots in an identifier.
pub fn count_dots(s: &str) -> (r: usize)
    ensures
        r == spec_count_dots(s@),
{
    let n = s.unicode_len();
    let mut cnt: usize = 0;
    let mut i: usize = 0;
    while i < n
        invariant
            0 <= i <= n,
            n == s@.len(),
            cnt <= i,
            cnt == spec_count_dots(s@.take(i as int)),
        decreases n - i,
    {
        proof {
            assert(s@.take(i + 1).drop_last() =~= s@.take(i as int));
            assert(s@.take(i + 1).last() == s@[i as int]);
        }
        if s.get_char(i) == '.' {
            cnt = cnt + 1;
        }
        i = i + 1;
    }
    proof {
        assert(s@.take(n as int) =~= s@);
    }
    cnt
}

/// The canonical display name among a target's identifier aliases: the
/// one with the most dots, the earliest of equally dotted ones.
pub open spec fn spec_pick_most_dots(ts: Seq<Seq<char>>) -> Seq<char>
    recommends
        ts.len() >= 1,
    decreases ts,
{
    if ts.len() <= 1 {
        ts[0]
    } else {
        let p = spec_pick_most_dots(ts.drop_last());
        if spec_count_dots(ts.last()) > spec_count_dots(p) {
            ts.last()
        } else {
            p
        }
    }
}

/// The canonical pick is one of the entries, no entry has more dots,
/// and every earlier entry has strictly fewer: the earliest
/// most-dotted identifier wins.
pub proof fn lemma_pick_most_dots_earliest(ts: Seq<Seq<char>>)
    requires
        ts.len() >= 1,
    ensures
        exists|i: int|
            {
                &&& 0 <= i < ts.len()
                &&& #[trigger] ts[i] == spec_pick_most_dots(ts)
                &&& forall|j: int|
                    0 <= j < i ==> spec_count_dots(#[trigger] ts[j]) < spec_count_dots(
                        spec_pick_most_dots(ts),
                    )
            },
        forall|j: int|
            0 <= j < ts.len() ==> spec_count_dots(#[trigger] ts[j]) <= spec_count_dots(
                spec_pick_most_dots(ts),
            ),
    decreases ts,
{
    if ts.len() == 1 {
        assert(ts[0] == spec_pick_most_dots(ts));
    } else {
        lemma_pick_most_dots_earliest(ts.drop_last());
        let d = ts.drop_last();
        let p = spec_pick_most_dots(d);
        let wit = choose|i: int|
            {
                &&& 0 <= i < d.len()
                &&& #[trigger] d[i] == p
                &&& forall|j: int|
                    0 <= j < i ==> spec_count_dots(#[trigger] d[j]) < spec_count_dots(p)
            };
        assert(forall|j: int| 0 <= j < d.len() ==> #[trigger] ts[j] == d[j]);
        if spec_count_dots(ts.last()) > spec_count_dots(p) {
            let n = ts.len() - 1;
            assert(ts[n] == spec_pick_most_dots(ts));
            assert forall|j: int| 0 <= j < n implies spec_count_dots(#[trigger] ts[j])
                < spec_count_dots(spec_pick_most_dots(ts)) by {
                assert(spec_count_dots(d[j]) <= spec_count_dots(p));
            }
        } else {
            assert(ts[wit] == spec_pick_most_dots(ts));
        }
    }
}

/// Picks the canonical display name from a non-empty identifier list.
pub fn pick_most_dots(ts: &Vec<String>) -> (r: String)
    requires
        ts.len() >= 1,
    ensures
        r@ == spec_pick_most_dots(ts.deep_view()),
{
    let ghost tdv = ts.deep_view();
    let mut best: String = ts[0].clone();
    let mut best_dots = count_dots(best.as_str());
    let mut i: usize = 1;
    assert(tdv.take(1).len() == 1 && tdv.take(1)[0] == ts@[0]@);
    assert(best@ == spec_pick_most_dots(tdv.take(1)));
    while i < ts.len()
        invariant
            1 <= i <= ts.len(),
            tdv == ts.deep_view(),
            tdv.len() == ts@.len(),
            forall|j: int| 0 <= j < tdv.len() ==> #[trigger] tdv[j] == ts@[j]@,
            best@ == spec_pick_most_dots(tdv.take(i as int)),
            best_dots == spec_count_dots(best@),
        decreases ts.len() - i,
    {
        proof {
            assert(tdv.take(i + 1).drop_last() =~= tdv.take(i as int));
            assert(tdv.take(i + 1).last() == tdv[i as int]);
        }
        let d = count_dots(ts[i].as_str());
        if d > best_dots {
            best = ts[i].clone();
            best_dots = d;
        }
        i = i + 1;
    }
    proof {
        assert(tdv.take(ts@.len() as int) =~= tdv);
    }
    best
}

/// One registered definition: canonical identifier, owning file,
/// title content and the assigned anchor id. Never mutated once
/// created.
pub struct LocalDefinition {
    pub canonical_name: String,
    pub fileid: nodes::FileId,
    pub title: Vec<nodes::Node>,
    pub html5_id: String,
}

/// The mathematical image of one definition.
pub ghost struct LocalDefinitionV {
    pub canonical_name: Seq<char>,
    pub fileid: Seq<char>,
    pub title: Seq<nodes::NodeV>,
    pub html5_id: Seq<char>,
}

pub open spec fn def_v(d: LocalDefinition) -> LocalDefinitionV {
    LocalDefinitionV {
        canonical_name: d.canonical_name@,
        fileid: d.fileid@,
        title: nodes::children_v(d.title@),
        html5_id: d.html5_id@,
    }
}

pub open spec fn defs_v(ds: Seq<LocalDefinition>) -> Seq<LocalDefinitionV> {
    Seq::new(ds.len(), |i: int| def_v(ds[i]))
}

/// One lookup result: the `(file id, anchor)` pair a renderer needs,
/// with the canonical name and title content.
pub struct InternalResult {
    pub result: (String, String),
    pub canonical_name: String,
    pub title: Vec<nodes::Node>,
}

/// The mathematical image of one lookup result.
pub ghost struct InternalResultV {
    pub result: (Seq<char>, Seq<char>),
    pub canonical_name: Seq<char>,
    pub title: Seq<nodes::NodeV>,
}

pub open spec fn iresult_v(r: InternalResult) -> InternalResultV {
    InternalResultV {
        result: (r.result.0@, r.result.1@),
        canonical_name: r.canonical_name@,
        title: nodes::children_v(r.title@),
    }
}

/// What `get` derives from one stored definition: the owning file's
/// suffix-stripped id, the anchor, and the stored name and title.
pub open spec fn spec_lookup_result(d: LocalDefinitionV) -> InternalResultV {
    InternalResultV {
        result: (nodes::spec_without_known_suffix(d.fileid), d.html5_id),
        canonical_name: d.canonical_name,
        title: d.title,
    }
}

/// The `domain:name:identifier` key under which one identifier is
/// registered, with the identifier normalized.
pub open spec fn def_key(domain: Seq<char>, name: Seq<char>, target: Seq<char>) -> Seq<char> {
    domain + seq![':'] + name + seq![':'] + spec_normalize(target)
}

pub open spec fn db_has(es: Seq<(String, Vec<LocalDefinition>)>, k: Seq<char>) -> bool {
    exists|i: int| 0 <= i < es.len() && es[i].0@ == k
}

pub open spec fn key_at(es: Seq<(String, Vec<LocalDefinition>)>, k: Seq<char>) -> int {
    choose|i: int| 0 <= i < es.len() && es[i].0@ == k
}

/// The database's mathematical content: key to ordered definitions.
pub open spec fn db_map(es: Seq<(String, Vec<LocalDefinition>)>) -> Map<
    Seq<char>,
    Seq<LocalDefinitionV>,
> {
    Map::new(|k: Seq<char>| db_has(es, k), |k: Seq<char>| defs_v(es[key_at(es, k)].1@))
}

/// Appending one definition under one key: existing lists grow at the
/// end, a fresh key starts its list.
pub open spec fn push_def(
    m: Map<Seq<char>, Seq<LocalDefinitionV>>,
    k: Seq<char>,
    d: LocalDefinitionV,
) -> Map<Seq<char>, Seq<LocalDefinitionV>> {
    m.insert(
        k,
        if m.contains_key(k) {
            m[k].push(d)
        } else {
            seq![d]
        },
    )
}

/// Registering one definition site under every identifier it defines,
/// in the order the identifiers were given.
pub open spec fn spec_define_all(
    m: Map<Seq<char>, Seq<LocalDefinitionV>>,
    domain: Seq<char>,
    name: Seq<char>,
    ts: Seq<Seq<char>>,
    d: LocalDefinitionV,
) -> Map<Seq<char>, Seq<LocalDefinitionV>>
    decreases ts,
{
    if ts.len() == 0 {
        m
    } else {
        push_def(spec_define_all(m, domain, name, ts.drop_last(), d), def_key(domain, name, ts.last()), d)
    }
}

pub open spec fn keys_distinct(es: Seq<(String, Vec<LocalDefinition>)>) -> bool {
    forall|i: int, j: int|
        #![trigger es[i].0, es[j].0]
        0 <= i < j < es.len() ==> es[i].0@ != es[j].0@
}

/// With distinct keys, the entry found at an index is the one the map
/// speaks of.
proof fn lemma_db_at(es: Seq<(String, Vec<LocalDefinition>)>, i: int)
    requires
        keys_distinct(es),
        0 <= i < es.len(),
    ensures
        db_has(es, es[i].0@),
        key_at(es, es[i].0@) == i,
        db_map(es).contains_key(es[i].0@),
        db_map(es)[es[i].0@] == defs_v(es[i].1@),
{
    let k = es[i].0@;
    assert(db_has(es, k));
    let j = key_at(es, k);
    assert(0 <= j < es.len() && es[j].0@ == k);
    if j != i {
        if j < i {
            assert(es[j].0@ != es[i].0@);
        } else {
            assert(es[i].0@ != es[j].0@);
        }
        assert(false);
    }
}

/// Appending one definition to the entry at a given index appends it
/// to that key's list in the map and changes nothing else.
proof fn lemma_db_update(
    es1: Seq<(String, Vec<LocalDefinition>)>,
    es2: Seq<(String, Vec<LocalDefinition>)>,
    i: int,
    d: LocalDefinition,
)
    requires
        keys_distinct(es1),
        0 <= i < es1.len(),
        es2.len() == es1.len(),
        es2[i].0@ == es1[i].0@,
        es2[i].1@ == es1[i].1@.push(d),
        forall|j: int| 0 <= j < es1.len() && j != i ==> es2[j] == #[trigger] es1[j],
    ensures
        keys_distinct(es2),
        db_map(es2) == push_def(db_map(es1), es1[i].0@, def_v(d)),
{
    let k0 = es1[i].0@;
    assert forall|a: int, b: int|
        #![trigger es2[a].0, es2[b].0]
        0 <= a < b < es2.len() implies es2[a].0@ != es2[b].0@ by {
        assert(es2[a].0@ == es1[a].0@);
        assert(es2[b].0@ == es1[b].0@);
        assert(es1[a].0@ != es1[b].0@);
    }
    lemma_db_at(es1, i);
    lemma_db_at(es2, i);
    let m1 = db_map(es1);
    let m2 = db_map(es2);
    let tgt = push_def(m1, k0, def_v(d));
    assert(defs_v(es2[i].1@) =~= defs_v(es1[i].1@).push(def_v(d)));
    assert forall|k: Seq<char>| #[trigger] m2.contains_key(k) implies tgt.contains_key(k) && m2[k]
        == tgt[k] by {
        let j2 = key_at(es2, k);
        assert(0 <= j2 < es2.len() && es2[j2].0@ == k);
        lemma_db_at(es2, j2);
        if k == k0 {
            assert(j2 == i);
            assert(m2[k] == defs_v(es2[i].1@));
            assert(tgt[k] == m1[k0].push(def_v(d)));
        } else {
            assert(j2 != i);
            assert(es2[j2] == es1[j2]);
            lemma_db_at(es1, j2);
            assert(m2[k] == defs_v(es2[j2].1@));
            assert(tgt[k] == m1[k]);
        }
    }
    assert forall|k: Seq<char>| #[trigger] tgt.contains_key(k) implies m2.contains_key(k) by {
        if k == k0 {
            assert(es2[i].0@ == k);
            assert(db_has(es2, k));
        } else {
            assert(m1.contains_key(k));
            let j1 = key_at(es1, k);
            assert(0 <= j1 < es1.len() && es1[j1].0@ == k);
            assert(j1 != i);
            assert(es2[j1] == es1[j1]);
            assert(db_has(es2, k));
        }
    }
    assert(m2 =~= tgt);
}

/// Appending an entry under a fresh key starts that key's list and
/// changes nothing else.
proof fn lemma_db_append(
    es1: Seq<(String, Vec<LocalDefinition>)>,
    es2: Seq<(String, Vec<LocalDefinition>)>,
    d: LocalDefinition,
)
    requires
        keys_distinct(es1),
        es2.len() == es1.len() + 1,
        forall|j: int| 0 <= j < es1.len() ==> es2[j] == #[trigger] es1[j],
        es2.last().1@ == seq![d],
        !db_has(es1, es2.last().0@),
    ensures
        keys_distinct(es2),
        db_map(es2) == push_def(db_map(es1), es2.last().0@, def_v(d)),
{
    let n = es1.len() as int;
    let k0 = es2.last().0@;
    assert forall|a: int, b: int|
        #![trigger es2[a].0, es2[b].0]
        0 <= a < b < es2.len() implies es2[a].0@ != es2[b].0@ by {
        if b < n {
            assert(es2[a].0@ == es1[a].0@);
            assert(es2[b].0@ == es1[b].0@);
            assert(es1[a].0@ != es1[b].0@);
        } else {
            assert(es2[b].0@ == k0);
            assert(es2[a] == es1[a]);
            if es2[a].0@ == k0 {
                assert(db_has(es1, k0));
            }
        }
    }
    let m1 = db_map(es1);
    let m2 = db_map(es2);
    let tgt = push_def(m1, k0, def_v(d));
    assert(!m1.contains_key(k0));
    lemma_db_at(es2, n);
    assert(defs_v(es2[n].1@) =~= seq![def_v(d)]);
    assert forall|k: Seq<char>| #[trigger] m2.contains_key(k) implies tgt.contains_key(k) && m2[k]
        == tgt[k] by {
        let j2 = key_at(es2, k);
        assert(0 <= j2 < es2.len() && es2[j2].0@ == k);
        lemma_db_at(es2, j2);
        if k == k0 {
            assert(j2 == n);
            assert(m2[k] == defs_v(es2[n].1@));
        } else {
            assert(j2 != n);
            assert(es2[j2] == es1[j2]);
            lemma_db_at(es1, j2);
            assert(m2[k] == defs_v(es2[j2].1@));
            assert(tgt[k] == m1[k]);
        }
    }
    assert forall|k: Seq<char>| #[trigger] tgt.contains_key(k) implies m2.contains_key(k) by {
        if k == k0 {
            assert(es2[n].0@ == k);
            assert(db_has(es2, k));
        } else {
            assert(m1.contains_key(k));
            let j1 = key_at(es1, k);
            assert(0 <= j1 < es1.len() && es1[j1].0@ == k);
            assert(es2[j1] == es1[j1]);
            assert(db_has(es2, k));
        }
    }
    assert(m2 =~= tgt);
}

/// Finds the entry holding the given key, if any.
fn find_entry(entries: &Vec<(String, Vec<LocalDefinition>)>, key: &String) -> (r: Option<usize>)
    ensures
        match r {
            Some(i) => 0 <= i < entries@.len() && entries@[i as int].0@ == key@,
            None => forall|j: int| 0 <= j < entries@.len() ==> (#[trigger] entries@[j].0)@ != key@,
        },
{
    let n = entries.len();
    let mut idx: usize = 0;
    while idx < n
        invariant
            0 <= idx <= n,
            n == entries@.len(),
            forall|j: int| 0 <= j < idx ==> (#[trigger] entries@[j].0)@ != key@,
        decreases n - idx,
    {
        if entries[idx].0 == *key {
            return Some(idx);
        }
        idx = idx + 1;
    }
    None
}

/// The symbol table, an association list with pairwise-distinct keys.
pub struct TargetDatabase {
    pub entries: Vec<(String, Vec<LocalDefinition>)>,
}

impl View for TargetDatabase {
    type V = Map<Seq<char>, Seq<LocalDefinitionV>>;

    open spec fn view(&self) -> Map<Seq<char>, Seq<LocalDefinitionV>> {
        db_map(self.entries@)
    }
}

impl TargetDatabase {
    /// Keys are pairwise distinct and every stored owning file id has a
    /// usable file name, so lookups can strip its suffix.
    pub open spec fn wf(&self) -> bool {
        &&& keys_distinct(self.entries@)
        &&& forall|i: int, j: int|
            0 <= i < self.entries@.len() && 0 <= j < self.entries@[i].1@.len()
                ==> nodes::has_file_name(#[trigger] self.entries@[i].1@[j].fileid@)
    }

    /// An empty symbol table.
    pub fn new() -> (r: TargetDatabase)
        ensures
            r.wf(),
            r@ =~= Map::<Seq<char>, Seq<LocalDefinitionV>>::empty(),
    {
        let r = TargetDatabase { entries: Vec::new() };
        proof {
            assert(forall|k: Seq<char>| !db_has(r.entries@, k));
        }
        r
    }

    /// Looks the normalized key up and returns every definition
    /// registered under it, in registration order, each carrying the
    /// owning file's suffix-stripped id, the anchor, the canonical
    /// name and the title.
    pub fn get(&self, key: &str) -> (r: Vec<InternalResult>)
        requires
            self.wf(),
        ensures
            !self@.contains_key(spec_normalize(key@)) ==> r@.len() == 0,
            self@.contains_key(spec_normalize(key@)) ==> {
                &&& r@.len() == self@[spec_normalize(key@)].len()
                &&& forall|i: int|
                    0 <= i < r@.len() ==> iresult_v(#[trigger] r@[i]) == spec_lookup_result(
                        self@[spec_normalize(key@)][i],
                    )
            },
    {
        let norm = normalize_target(key);
        let ghost k = spec_normalize(key@);
        let idx: usize = match find_entry(&self.entries, &norm) {
            Some(i) => i,
            None => {
                proof {
                    if db_has(self.entries@, k) {
                        let w = choose|i: int|
                            0 <= i < self.entries@.len() && self.entries@[i].0@ == k;
                        assert(self.entries@[w].0@ != k);
                    }
                }
                let r: Vec<InternalResult> = Vec::new();
                return r;
            },
        };
        proof {
            lemma_db_at(self.entries@, idx as int);
        }
        let ghost ds = self.entries@[idx as int].1@;
        let defs = &self.entries[idx].1;
        let mut r: Vec<InternalResult> = Vec::new();
        let mut j: usize = 0;
        while j < defs.len()
            invariant
                0 <= j <= defs.len(),
                defs@ == ds,
                self.wf(),
                self.entries@[idx as int].1@ == ds,
                0 <= idx < self.entries@.len(),
                r@.len() == j,
                forall|i: int|
                    0 <= i < j ==> iresult_v(#[trigger] r@[i]) == spec_lookup_result(
                        defs_v(ds)[i],
                    ),
            decreases defs.len() - j,
        {
            let d = &defs[j];
            assert(nodes::has_file_name(d.fileid@));
            let item = InternalResult {
                result: (d.fileid.without_known_suffix(), d.html5_id.clone()),
                canonical_name: d.canonical_name.clone(),
                title: nodes::duplicate_nodes(&d.title),
            };
            proof {
                assert(def_v(ds[j as int]) == defs_v(ds)[j as int]);
            }
            r.push(item);
            j = j + 1;
        }
        r
    }

    /// Registers one definition site under every identifier it
    /// defines: each identifier's normalized key gains one definition
    /// carrying the canonical name (most dots, earliest wins), the
    /// owning file, the title and the assigned anchor.
    pub fn define_local_target(
        &mut self,
        domain: &str,
        name: &str,
        targets: &Vec<String>,
        pageid: &nodes::FileId,
        title: &Vec<nodes::Node>,
        html5_id: &str,
    )
        requires
            old(self).wf(),
            targets.len() >= 1,
            nodes::has_file_name(pageid@),
        ensures
            final(self).wf(),
            final(self)@ == spec_define_all(
                old(self)@,
                domain@,
                name@,
                targets.deep_view(),
                LocalDefinitionV {
                    canonical_name: spec_pick_most_dots(targets.deep_view()),
                    fileid: pageid@,
                    title: nodes::children_v(title@),
                    html5_id: html5_id@,
                },
            ),
    {
        let canonical = pick_most_dots(targets);
        let ghost tdv = targets.deep_view();
        let ghost dv = LocalDefinitionV {
            canonical_name: spec_pick_most_dots(tdv),
            fileid: pageid@,
            title: nodes::children_v(title@),
            html5_id: html5_id@,
        };
        let ghost m0 = self@;
        let mut t: usize = 0;
        while t < targets.len()
            invariant
                0 <= t <= targets.len(),
                tdv == targets.deep_view(),
                tdv.len() == targets@.len(),
                forall|j: int| 0 <= j < tdv.len() ==> #[trigger] tdv[j] == targets@[j]@,
                canonical@ == dv.canonical_name,
                dv == (LocalDefinitionV {
                    canonical_name: spec_pick_most_dots(tdv),
                    fileid: pageid@,
                    title: nodes::children_v(title@),
                    html5_id: html5_id@,
                }),
                nodes::has_file_name(pageid@),
                self.wf(),
                self@ == spec_define_all(m0, domain@, name@, tdv.take(t as int), dv),
            decreases targets.len() - t,
        {
            let norm = normalize_target(targets[t].as_str());
            let mut key = String::new();
            key.append(domain);
            text::push_char(&mut key, ':');
            key.append(name);
            text::push_char(&mut key, ':');
            key.append(norm.as_str());
            proof {
                assert(key@ =~= def_key(domain@, name@, tdv[t as int]));
            }
            let d = LocalDefinition {
                canonical_name: canonical.clone(),
                fileid: pageid.duplicate(),
                title: nodes::duplicate_nodes(title),
                html5_id: html5_id.to_owned(),
            };
            let ghost dd = d;
            proof {
                assert(dd.canonical_name@ == dv.canonical_name);
                assert(dd.fileid@ == dv.fileid);
                assert(nodes::children_v(dd.title@) == dv.title);
                assert(dd.html5_id@ == dv.html5_id);
                assert(def_v(dd) == dv);
            }
            let found = find_entry(&self.entries, &key);
            let ghost es1 = self.entries@;
            let ghost mid = self@;
            match found {
                Some(idx) => {
                    let slot = &mut self.entries[idx];
                    slot.1.push(d);
                    proof {
                        lemma_db_update(es1, self.entries@, idx as int, dd);
                        lemma_db_at(es1, idx as int);
                        assert(es1[idx as int].0@ == key@);
                    }
                },
                None => {
                    proof {
                        if db_has(es1, key@) {
                            let w = choose|i: int| 0 <= i < es1.len() && es1[i].0@ == key@;
                            assert(es1[w].0@ != key@);
                        }
                    }
                    let mut ds: Vec<LocalDefinition> = Vec::new();
                    ds.push(d);
                    self.entries.push((key, ds));
                    proof {
                        lemma_db_append(es1, self.entries@, dd);
                    }
                },
            }
            proof {
                assert(self@ == push_def(mid, def_key(domain@, name@, tdv[t as int]), dv));
                assert(tdv.take(t + 1).drop_last() =~= tdv.take(t as int));
                assert(tdv.take(t + 1).last() == tdv[t as int]);
                assert(self@ == spec_define_all(m0, domain@, name@, tdv.take(t + 1), dv));
                assert forall|i: int, j: int|
                    0 <= i < self.entries@.len() && 0 <= j < self.entries@[i].1@.len()
                        implies nodes::has_file_name(
                    (#[trigger] self.entries@[i].1@[j]).fileid@,
                ) by {
                    if i < es1.len() && j < es1[i].1@.len() {
                        assert(nodes::has_file_name(es1[i].1@[j].fileid@));
                    } else {
                        assert(self.entries@[i].1@[j] == dd);
                    }
                }
            }
            t = t + 1;
        }
        proof {
            assert(tdv.take(targets@.len() as int) =~= tdv);
        }
    }
}

} // verus!
