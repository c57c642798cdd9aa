//! Bundle elements and namespace migration: the payloads read from an
//! input archive and the rewrite that moves one bundle's internal
//! identifiers under its own `project/branch` namespace.
use vstd::prelude::*;

use crate::nodes;
use crate::text;

verus! {

/// One bundle's identity: the project and branch it was built from.
pub struct SiteMetadata {
    pub project: String,
    pub branch: String,
}

impl SiteMetadata {
    pub fn new(project: String, branch: String) -> (r: SiteMetadata)
        ensures
            r.project == project,
            r.branch == branch,
    {
        SiteMetadata { project, branch }
    }

    /// The namespace every element of this bundle is migrated under.
    pub fn get_namespace(&self) -> (r: String)
        ensures
            r@ == self.project@ + seq!['/'] + self.branch@,
    {
        let mut out = self.project.clone();
        text::push_char(&mut out, '/');
        out.append(self.branch.as_str());
        out
    }
}

#[derive(Clone, Copy, PartialEq, Eq, Structural, Debug)]
pub enum Severity {
    Info,
    Warning,
    Error,
}

/// One diagnostics record entry.
pub struct Diagnostic {
    pub severity: String,
    pub start: i32,
    pub message: String,
}

/// A diagnostics payload: the list of entries for one source file.
pub struct Diagnostics {
    pub diagnostics: Vec<Diagnostic>,
}

/// A bundle entry's payload: a parsed document, raw asset bytes, or a
/// diagnostics list.
pub enum BundleElementData {
    Document(Box<nodes::Document>),
    Asset(Vec<u8>),
    Diagnostics(Vec<Diagnostic>),
}

/// The archive directory one payload kind lives under.
pub open spec fn spec_path_component(d: BundleElementData) -> Seq<char> {
    match d {
        BundleElementData::Document(_) => "documents"@,
        BundleElementData::Asset(_) => "assets"@,
        BundleElementData::Diagnostics(_) => "diagnostics"@,
    }
}

impl BundleElementData {
    pub fn get_path_component(&self) -> (r: &'static str)
        ensures
            r@ == spec_path_component(*self),
    {
        match self {
            BundleElementData::Document(_) => "documents",
            BundleElementData::Asset(_) => "assets",
            BundleElementData::Diagnostics(_) => "diagnostics",
        }
    }
}

/// One element read from a bundle: its relative name within the
/// archive's namespace, and its payload.
pub struct BundleElement {
    pub name: String,
    pub data: BundleElementData,
}

/// What kind of entry one archive path names, by its fixed top-level
/// directory prefix; the site metadata record sits at the root, and
/// anything else is unrecognized (skipped with a warning, not fatal).
#[derive(Clone, Copy, PartialEq, Eq, Structural, Debug)]
pub enum BundleEntryClass {
    Document,
    Asset,
    Diagnostics,
    SiteRecord,
    Unrecognized,
}

/// The classification of an archive entry path: its first slash
/// segment decides the kind.
pub open spec fn spec_classify_entry(s: Seq<char>) -> BundleEntryClass {
    let prefix = text::split_slash(s)[0];
    if prefix == "documents"@ {
        BundleEntryClass::Document
    } else if prefix == "assets"@ {
        BundleEntryClass::Asset
    } else if prefix == "diagnostics"@ {
        BundleEntryClass::Diagnostics
    } else if s == "site.bson"@ {
        BundleEntryClass::SiteRecord
    } else {
        BundleEntryClass::Unrecognized
    }
}

/// An entry's name below its category directory: the path after the
/// first slash, normalized (empty and lone-dot segments dropped).
pub open spec fn spec_entry_rest(s: Seq<char>) -> Seq<char> {
    text::join_slash(text::kept_parts(text::split_slash(s).skip(1)))
}

/// Classifies one archive entry path and returns its name below the
/// category directory.
pub fn classify_entry(name: &str) -> (r: (BundleEntryClass, String))
    ensures
        r.0 == spec_classify_entry(name@),
        r.1@ == spec_entry_rest(name@),
{
    let parts = text::split_slash_str(name);
    let ghost all = text::split_slash(name@);
    proof {
        assert(parts.deep_view()[0] == parts@[0]@);
        assert(all[0] == parts@[0]@);
    }
    let class = if text::str_eq(parts[0].as_str(), "documents") {
        BundleEntryClass::Document
    } else if text::str_eq(parts[0].as_str(), "assets") {
        BundleEntryClass::Asset
    } else if text::str_eq(parts[0].as_str(), "diagnostics") {
        BundleEntryClass::Diagnostics
    } else if text::str_eq(name, "site.bson") {
        BundleEntryClass::SiteRecord
    } else {
        BundleEntryClass::Unrecognized
    };
    let ghost q = all.skip(1);
    let mut rest = String::new();
    let mut any = false;
    let mut i: usize = 1;
    proof {
        assert(q.take(0).len() == 0);
        assert(rest@ =~= text::join_slash(text::kept_parts(q.take(0))));
    }
    #[verifier::loop_isolation(false)]
    while i < parts.len()
        invariant
            1 <= i <= parts.len(),
            parts.deep_view() == all,
            all.len() == parts.len(),
            q == all.skip(1),
            any == (text::kept_parts(q.take(i - 1)).len() > 0),
            rest@ == text::join_slash(text::kept_parts(q.take(i - 1))),
        decreases parts.len() - i,
    {
        let p = &parts[i];
        let ghost kq = text::kept_parts(q.take(i - 1));
        assert(q.take(i as int) =~= q.take(i - 1).push(q[i - 1]));
        assert(q[i - 1] == all[i as int]);
        assert(q.take(i as int).drop_last() =~= q.take(i - 1));
        let keep = if p.as_str().is_empty() {
            false
        } else if p.as_str().unicode_len() == 1 {
            let c = p.as_str().get_char(0);
            c != '.'
        } else {
            true
        };
        proof {
            if p@.len() == 1 && p@[0] == '.' {
                assert(p@ =~= seq!['.']);
            }
            if p@ == seq!['.'] {
                assert(p@[0] == '.');
            }
        }
        assert(keep == text::keep_part(all[i as int]));
        if keep {
            if any {
                text::push_char(&mut rest, '/');
            }
            rest.append(p.as_str());
            proof {
                let cur = text::kept_parts(q.take(i as int));
                assert(cur =~= kq.push(all[i as int]));
                assert(cur.drop_last() =~= kq);
                if kq.len() == 0 {
                    assert(text::join_slash(cur) == all[i as int]);
                } else {
                    let last = all[i as int];
                    assert(text::join_slash(cur) == text::join_slash(kq) + seq!['/'] + last);
                }
            }
            any = true;
        } else {
            assert(text::kept_parts(q.take(i as int)) =~= text::kept_parts(q.take(i - 1)));
        }
        i = i + 1;
    }
    proof {
        assert(q.take(parts.len() - 1) =~= q);
    }
    (class, rest)
}

/// One subtree after namespace migration: every root node's file id
/// and every resolved cross-reference file id gains the namespace
/// prefix; anchors and everything else stay as they are.
pub open spec fn migrate_node_v(n: nodes::NodeV, ns: Seq<char>) -> nodes::NodeV
    decreases n,
{
    nodes::NodeV {
        data: migrate_data_v(n.data, ns),
        children: migrate_seq_v(n.children, ns),
        line: n.line,
    }
}

pub open spec fn migrate_seq_v(cs: Seq<nodes::NodeV>, ns: Seq<char>) -> Seq<nodes::NodeV>
    decreases cs,
{
    if cs.len() == 0 {
        Seq::empty()
    } else {
        migrate_seq_v(cs.drop_last(), ns).push(migrate_node_v(cs.last(), ns))
    }
}

/// The payload rewrite: root file ids and resolved reference file ids
/// are joined under the namespace, with anchors untouched.
pub open spec fn migrate_data_v(d: nodes::NodeDataV, ns: Seq<char>) -> nodes::NodeDataV {
    match d {
        nodes::NodeDataV::Root { fileid, options } => nodes::NodeDataV::Root {
            fileid: text::spec_join(ns, fileid),
            options,
        },
        nodes::NodeDataV::RefRole { role, children, fileid, url } => nodes::NodeDataV::RefRole {
            role,
            children,
            fileid: match fileid {
                Some(p) => Some((text::spec_join(ns, p.0), p.1)),
                None => None,
            },
            url,
        },
        _ => d,
    }
}

/// Rewrites one subtree under the namespace.
pub fn migrate_node(node: nodes::Node, ns: &str) -> (r: nodes::Node)
    ensures
        nodes::node_v(r) == migrate_node_v(nodes::node_v(node), ns@),
    decreases node,
{
    let ghost n0 = node;
    proof {
        nodes::lemma_children_v(n0.children@);
    }
    let nodes::Node { data, mut children, position } = node;
    let new_data = match data {
        nodes::NodeData::Root(r) => nodes::NodeData::Root(
            nodes::Root {
                fileid: nodes::FileId { path: text::join_path(ns, r.fileid.path.as_str()) },
                options: r.options,
            },
        ),
        nodes::NodeData::RefRole(rr) => nodes::NodeData::RefRole(
            nodes::RefRole {
                role: rr.role,
                children: rr.children,
                fileid: match rr.fileid {
                    Some(p) => Some((text::join_path(ns, p.0.as_str()), p.1)),
                    None => None,
                },
                url: rr.url,
            },
        ),
        other => other,
    };
    proof {
        assert(nodes::data_v(new_data) == migrate_data_v(nodes::data_v(n0.data), ns@));
    }
    let ghost cs = nodes::children_v(n0.children@);
    let ghost total = n0.children@.len();
    let mut out_children: Vec<nodes::Node> = Vec::new();
    proof {
        assert(cs.take(0).len() == 0);
        assert(nodes::children_v(out_children@) =~= migrate_seq_v(cs.take(0), ns@));
    }
    #[verifier::loop_isolation(false)]
    while children.len() > 0
        invariant
            total == n0.children@.len(),
            out_children@.len() + children@.len() == total,
            out_children@.len() <= total,
            children@ == n0.children@.skip(out_children@.len() as int),
            cs == nodes::children_v(n0.children@),
            cs.len() == total,
            forall|j: int| 0 <= j < cs.len() ==> cs[j] == nodes::node_v(#[trigger] n0.children@[j]),
            nodes::children_v(out_children@) == migrate_seq_v(cs.take(out_children@.len() as int), ns@),
        decreases children@.len(),
    {
        let ghost i = out_children@.len() as int;
        let ghost pre = children@;
        let c = children.remove(0);
        proof {
            assert(pre == n0.children@.skip(i));
            assert(pre[0] == n0.children@.skip(i)[0]);
            assert(n0.children@.skip(i)[0] == n0.children@[i + 0]);
            assert(c == n0.children@[i]);
            assert(children@ == pre.remove(0));
            assert(children@ =~= n0.children@.skip(i + 1));
            assert(decreases_to!(n0 => c));
        }
        let rc = migrate_node(c, ns);
        let ghost prev_out = out_children@;
        out_children.push(rc);
        proof {
            assert(cs.take(i + 1).drop_last() =~= cs.take(i));
            assert(cs.take(i + 1).last() == cs[i]);
            assert(out_children@.drop_last() =~= prev_out);
            assert(nodes::children_v(out_children@) == nodes::children_v(prev_out).push(
                nodes::node_v(rc),
            ));
        }
    }
    proof {
        assert(cs.take(total as int) =~= cs);
    }
    nodes::Node { data: new_data, children: out_children, position }
}

impl BundleElement {
    pub fn new(name: String, data: BundleElementData) -> (r: BundleElement)
        ensures
            r.name == name,
            r.data == data,
    {
        BundleElement { name, data }
    }

    /// The element's full path in the output archive: its category
    /// directory followed by its (migrated) name.
    pub fn get_full_bundle_path(&self) -> (r: String)
        ensures
            r@ == text::spec_join(spec_path_component(self.data), self.name@),
    {
        let component = self.data.get_path_component();
        text::join_path(component, self.name.as_str())
    }

    /// Migrates this element under the given namespace: the storage
    /// name is prefixed, and a document payload additionally has its
    /// page id, its root file ids and its resolved reference file ids
    /// prefixed. Asset and diagnostics payloads are untouched. Not
    /// idempotent: the caller must migrate each element exactly once.
    pub fn migrate(&mut self, namespace: &str)
        ensures
            final(self).name@ == text::spec_join(namespace@, old(self).name@),
            match old(self).data {
                BundleElementData::Document(d) => {
                    &&& final(self).data matches BundleElementData::Document(d2)
                    &&& d2.page_id@ == text::spec_join(namespace@, d.page_id@)
                    &&& nodes::node_v(d2.ast) == migrate_node_v(nodes::node_v(d.ast), namespace@)
                    &&& d2.filename == d.filename
                    &&& d2.source == d.source
                    &&& d2.static_assets == d.static_assets
                    &&& d2.facets == d.facets
                },
                _ => final(self).data == old(self).data,
            },
    {
        let new_name = text::join_path(namespace, self.name.as_str());
        self.name = new_name;
        let mut data = BundleElementData::Asset(Vec::new());
        core::mem::swap(&mut self.data, &mut data);
        match data {
            BundleElementData::Document(boxed) => {
                let doc = *boxed;
                let nodes::Document { page_id, filename, ast, source, static_assets, facets } =
                    doc;
                let new_page_id = text::join_path(namespace, page_id.as_str());
                let new_ast = migrate_node(ast, namespace);
                let new_doc = nodes::Document {
                    page_id: new_page_id,
                    filename,
                    ast: new_ast,
                    source,
                    static_assets,
                    facets,
                };
                self.data = BundleElementData::Document(Box::new(new_doc));
            },
            other => {
                self.data = other;
            },
        }
    }
}

} // verus!
