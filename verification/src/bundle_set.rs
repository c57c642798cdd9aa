//! Splice write planning: the single writer's decision, per element,
//! of where to write it in the output archive, with content-addressed
//! asset deduplication.
use vstd::prelude::*;

use crate::bundle;
use crate::nodes;
use crate::text;

verus! {

/// What the writer does with one element: write its payload at the
/// given archive path, or skip it as an already-written asset.
pub enum WriteAction {
    Write(String),
    SkipDuplicate,
}

/// The one unrecoverable per-element condition: an asset whose
/// migrated name has no usable final segment to serve as its
/// content-hash key.
pub enum SpliceError {
    MissingAssetName,
}

/// An asset's dedup key: the final segment of its migrated name,
/// which is its content-hash filename.
pub open spec fn spec_asset_key(name: Seq<char>) -> Seq<char> {
    text::spec_last_component(name)
}

/// The writer's state after accepting one element: accepting a fresh
/// asset records its key, everything else leaves the state alone.
pub open spec fn spec_accept_state(s: Set<Seq<char>>, e: bundle::BundleElement) -> Set<Seq<char>> {
    match e.data {
        bundle::BundleElementData::Asset(_) => {
            if nodes::has_file_name(e.name@) && !s.contains(spec_asset_key(e.name@)) {
                s.insert(spec_asset_key(e.name@))
            } else {
                s
            }
        },
        _ => s,
    }
}

/// Whether accepting the element in this state writes an entry.
pub open spec fn spec_is_write(s: Set<Seq<char>>, e: bundle::BundleElement) -> bool {
    match e.data {
        bundle::BundleElementData::Asset(_) => nodes::has_file_name(e.name@) && !s.contains(
            spec_asset_key(e.name@),
        ),
        _ => true,
    }
}

/// The state after a whole element stream.
pub open spec fn spec_state_after(s: Set<Seq<char>>, es: Seq<bundle::BundleElement>) -> Set<
    Seq<char>,
>
    decreases es,
{
    if es.len() == 0 {
        s
    } else {
        spec_accept_state(spec_state_after(s, es.drop_last()), es.last())
    }
}

/// How many entries a stream writes, starting from a given state.
pub open spec fn spec_write_count(s: Set<Seq<char>>, es: Seq<bundle::BundleElement>) -> nat
    decreases es,
{
    if es.len() == 0 {
        0
    } else {
        spec_write_count(s, es.drop_last()) + (if spec_is_write(
            spec_state_after(s, es.drop_last()),
            es.last(),
        ) {
            1nat
        } else {
            0nat
        })
    }
}

/// How many document and diagnostics elements a stream holds.
pub open spec fn spec_doc_diag_count(es: Seq<bundle::BundleElement>) -> nat
    decreases es,
{
    if es.len() == 0 {
        0
    } else {
        spec_doc_diag_count(es.drop_last()) + (match es.last().data {
            bundle::BundleElementData::Asset(_) => 0nat,
            _ => 1nat,
        })
    }
}

/// How many asset entries a stream writes, starting from a state.
pub open spec fn spec_asset_write_count(s: Set<Seq<char>>, es: Seq<bundle::BundleElement>) -> nat
    decreases es,
{
    if es.len() == 0 {
        0
    } else {
        spec_asset_write_count(s, es.drop_last()) + (match es.last().data {
            bundle::BundleElementData::Asset(_) => if spec_is_write(
                spec_state_after(s, es.drop_last()),
                es.last(),
            ) {
                1nat
            } else {
                0nat
            },
            _ => 0nat,
        })
    }
}

/// The distinct content-hash keys of a stream's asset elements.
pub open spec fn spec_asset_keys(es: Seq<bundle::BundleElement>) -> Set<Seq<char>>
    decreases es,
{
    if es.len() == 0 {
        Set::empty()
    } else {
        match es.last().data {
            bundle::BundleElementData::Asset(_) => spec_asset_keys(es.drop_last()).insert(
                spec_asset_key(es.last().name@),
            ),
            _ => spec_asset_keys(es.drop_last()),
        }
    }
}

/// Splicing a stream writes one entry per document or diagnostics
/// element and exactly one entry per distinct asset key not already
/// written: the writer's final key set is the starting set joined
/// with the stream's keys, and the number of asset writes is exactly
/// the number of keys that were new.
pub proof fn lemma_splice_output_counts(s0: Set<Seq<char>>, es: Seq<bundle::BundleElement>)
    requires
        s0.finite(),
        forall|i: int|
            0 <= i < es.len() && ((#[trigger] es[i].data) matches bundle::BundleElementData::Asset(
                b,
            )) ==> nodes::has_file_name(es[i].name@),
    ensures
        spec_state_after(s0, es) == s0 + spec_asset_keys(es),
        spec_state_after(s0, es).finite(),
        spec_asset_keys(es).finite(),
        spec_write_count(s0, es) == spec_doc_diag_count(es) + spec_asset_write_count(s0, es),
        spec_asset_write_count(s0, es) + s0.len() == (s0 + spec_asset_keys(es)).len(),
    decreases es,
{
    if es.len() == 0 {
        assert(spec_state_after(s0, es) =~= s0 + spec_asset_keys(es));
        assert((s0 + spec_asset_keys(es)) =~= s0);
    } else {
        let d = es.drop_last();
        let e = es.last();
        assert(forall|i: int|
            0 <= i < d.len() ==> #[trigger] d[i] == es[i]);
        lemma_splice_output_counts(s0, d);
        let sd = spec_state_after(s0, d);
        match e.data {
            bundle::BundleElementData::Asset(_) => {
                assert(e == es[es.len() - 1]);
                assert(nodes::has_file_name(e.name@));
                let k = spec_asset_key(e.name@);
                if sd.contains(k) {
                    assert(spec_asset_keys(d).contains(k) || s0.contains(k));
                    assert(spec_state_after(s0, es) =~= s0 + spec_asset_keys(es));
                    assert((s0 + spec_asset_keys(es)) =~= (s0 + spec_asset_keys(d)).insert(k));
                    assert(((s0 + spec_asset_keys(d)).insert(k)).len() == (s0 + spec_asset_keys(
                        d,
                    )).len());
                } else {
                    assert(spec_state_after(s0, es) =~= (s0 + spec_asset_keys(d)).insert(k));
                    assert((s0 + spec_asset_keys(es)) =~= (s0 + spec_asset_keys(d)).insert(k));
                    assert(((s0 + spec_asset_keys(d)).insert(k)).len() == (s0 + spec_asset_keys(
                        d,
                    )).len() + 1);
                }
            },
            _ => {
                assert(spec_state_after(s0, es) =~= sd);
                assert((s0 + spec_asset_keys(es)) =~= (s0 + spec_asset_keys(d)));
            },
        }
    }
}

/// The single writer's dedup state: the content-hash keys of every
/// asset written so far.
pub struct SpliceWriter {
    pub written: Vec<String>,
}

pub open spec fn written_set(es: Seq<String>) -> Set<Seq<char>> {
    Set::new(|k: Seq<char>| exists|i: int| 0 <= i < es.len() && es[i]@ == k)
}

impl View for SpliceWriter {
    type V = Set<Seq<char>>;

    open spec fn view(&self) -> Set<Seq<char>> {
        written_set(self.written@)
    }
}

impl SpliceWriter {
    /// A fresh writer: nothing written yet.
    pub fn new() -> (r: SpliceWriter)
        ensures
            r@ =~= Set::<Seq<char>>::empty(),
    {
        let r = SpliceWriter { written: Vec::new() };
        proof {
            assert forall|k: Seq<char>| !(#[trigger] r@.contains(k)) by {
                if exists|i: int| 0 <= i < r.written@.len() && r.written@[i]@ == k {
                    let i = choose|i: int| 0 <= i < r.written@.len() && r.written@[i]@ == k;
                }
            }
        }
        r
    }

    /// Decides what to do with one element: documents and diagnostics
    /// are written at their category path; an asset is written at
    /// `assets/<hash>` the first time its content-hash key appears
    /// and skipped afterwards; an asset without a usable file name is
    /// an error.
    pub fn accept(&mut self, element: &bundle::BundleElement) -> (r: Result<
        WriteAction,
        SpliceError,
    >)
        ensures
            final(self)@ == spec_accept_state(old(self)@, *element),
            match element.data {
                bundle::BundleElementData::Asset(_) => {
                    if !nodes::has_file_name(element.name@) {
                        r matches Err(SpliceError::MissingAssetName)
                    } else if old(self)@.contains(spec_asset_key(element.name@)) {
                        r matches Ok(WriteAction::SkipDuplicate)
                    } else {
                        r matches Ok(WriteAction::Write(p)) && p@ == "assets/"@ + spec_asset_key(
                            element.name@,
                        )
                    }
                },
                _ => r matches Ok(WriteAction::Write(p)) && p@ == text::spec_join(
                    bundle::spec_path_component(element.data),
                    element.name@,
                ),
            },
    {
        match &element.data {
            bundle::BundleElementData::Asset(_) => {
                let name = element.name.as_str();
                let n = name.unicode_len();
                let usable = if n == 0 {
                    false
                } else if name.get_char(n - 1) == '/' {
                    false
                } else {
                    let last = text::last_component(name);
                    let ls = last.as_str();
                    let m = ls.unicode_len();
                    if m == 1 && ls.get_char(0) == '.' {
                        proof {
                            assert(text::spec_last_component(element.name@) =~= seq!['.']);
                        }
                        false
                    } else if m == 2 && ls.get_char(0) == '.' && ls.get_char(1) == '.' {
                        proof {
                            assert(text::spec_last_component(element.name@) =~= seq!['.', '.']);
                        }
                        false
                    } else {
                        proof {
                            if text::spec_last_component(element.name@) == seq!['.'] {
                                assert(last@[0] == '.');
                            }
                            if text::spec_last_component(element.name@) == seq!['.', '.'] {
                                assert(last@[0] == '.' && last@[1] == '.');
                            }
                        }
                        true
                    }
                };
                if !usable {
                    return Err(SpliceError::MissingAssetName);
                }
                assert(nodes::has_file_name(element.name@));
                let key = text::last_component(name);
                let ghost k = spec_asset_key(element.name@);
                let mut j: usize = 0;
                let n2 = self.written.len();
                while j < n2
                    invariant
                        0 <= j <= n2,
                        self.written@ == old(self).written@,
                        n2 == self.written@.len(),
                        key@ == k,
                        k == spec_asset_key(element.name@),
                        nodes::has_file_name(element.name@),
                        element.data matches bundle::BundleElementData::Asset(b),
                        forall|i: int| 0 <= i < j ==> (#[trigger] self.written@[i])@ != k,
                    decreases n2 - j,
                {
                    if self.written[j] == key {
                        assert(old(self)@.contains(k));
                        return Ok(WriteAction::SkipDuplicate);
                    }
                    j = j + 1;
                }
                proof {
                    if old(self)@.contains(k) {
                        let w = choose|i: int|
                            0 <= i < self.written@.len() && self.written@[i]@ == k;
                        assert(self.written@[w]@ != k);
                    }
                }
                let ghost before = self.written@;
                let mut p = String::new();
                p.append("assets/");
                p.append(key.as_str());
                self.written.push(key);
                proof {
                    assert forall|k2: Seq<char>| #[trigger] self@.contains(k2) <==> spec_accept_state(
                        written_set(before),
                        *element,
                    ).contains(k2) by {
                        if self@.contains(k2) {
                            let i = choose|i: int|
                                0 <= i < self.written@.len() && self.written@[i]@ == k2;
                            if i < before.len() {
                                assert(before[i]@ == k2);
                            }
                        }
                        if spec_accept_state(written_set(before), *element).contains(k2) {
                            if k2 == k {
                                assert(self.written@[before.len() as int]@ == k2);
                            } else {
                                let i = choose|i: int|
                                    0 <= i < before.len() && before[i]@ == k2;
                                assert(self.written@[i]@ == k2);
                            }
                        }
                    }
                    assert(self@ =~= spec_accept_state(written_set(before), *element));
                }
                Ok(WriteAction::Write(p))
            },
            _ => {
                let p = element.get_full_bundle_path();
                Ok(WriteAction::Write(p))
            },
        }
    }
}

} // verus!
