//! The document AST model: file identifiers, the closed node variant
//! union, and the parsed-document record.
//!
//! Every node owns its traversable children in `Node::children`; the
//! per-variant payloads hold only the fields that are not walked by the
//! passes (a directive's argument, an inline target's own content, and
//! so on), which mirrors which subtrees the passes visit.
use vstd::prelude::*;

use crate::text;

verus! {

/// Declares bson's value type so that node option payloads can be
/// carried through the model untouched; the passes never look inside.
#[verifier::external_type_specification]
#[verifier::external_body]
pub struct ExBson(bson::Bson);

/// Relies on bson::Bson's derived `Clone`: it yields a copy equal to
/// the original value.
#[verifier::external_body]
pub fn clone_bson_value(b: &bson::Bson) -> (r: bson::Bson)
    ensures
        r == *b,
{
    b.clone()
}

/// A normalized, slash-separated path identifying a source document.
pub struct FileId {
    pub path: String,
}

impl View for FileId {
    type V = Seq<char>;

    open spec fn view(&self) -> Seq<char> {
        self.path@
    }
}

/// Whether the path's final segment is a usable file name: the path
/// does not end in a slash and the last segment is not a dot segment.
pub open spec fn has_file_name(s: Seq<char>) -> bool {
    s.len() > 0 && s[s.len() - 1] != '/' && text::spec_last_component(s) != seq!['.']
        && text::spec_last_component(s) != seq!['.', '.']
}

/// The length of the known source-file suffix at the end of the path,
/// or zero when none of them matches.
pub open spec fn known_suffix_len(s: Seq<char>) -> nat {
    if text::ends_with(s, ".txt"@) {
        4
    } else if text::ends_with(s, ".rst"@) {
        4
    } else if text::ends_with(s, ".yaml"@) {
        5
    } else if text::ends_with(s, ".ast"@) {
        4
    } else {
        0
    }
}

/// The canonical merge key of a path: the known source suffix removed
/// and the remainder rendered in normalized slash form.
pub open spec fn spec_without_known_suffix(s: Seq<char>) -> Seq<char> {
    text::spec_as_posix(s.take(s.len() - known_suffix_len(s)))
}

impl FileId {
    /// Strips one known source-file suffix from the file name and
    /// renders the result in normalized slash form.
    pub fn without_known_suffix(&self) -> (r: String)
        requires
            has_file_name(self@),
        ensures
            r@ == spec_without_known_suffix(self@),
    {
        let s = self.path.as_str();
        let n = s.unicode_len();
        let k: usize = if text::ends_with_str(s, ".txt") {
            4
        } else if text::ends_with_str(s, ".rst") {
            4
        } else if text::ends_with_str(s, ".yaml") {
            5
        } else if text::ends_with_str(s, ".ast") {
            4
        } else {
            0
        };
        proof {
            reveal_strlit(".txt");
            reveal_strlit(".rst");
            reveal_strlit(".yaml");
            reveal_strlit(".ast");
            assert(k == known_suffix_len(self@));
        }
        let stem = s.substring_char(0, n - k);
        assert(stem@ =~= self@.take(self@.len() - known_suffix_len(self@)));
        text::posix_of(stem)
    }

    /// Renders the path in normalized slash form.
    pub fn as_posix(&self) -> (r: String)
        ensures
            r@ == text::spec_as_posix(self@),
    {
        text::posix_of(self.path.as_str())
    }

    /// Copies the identifier.
    pub fn duplicate(&self) -> (r: FileId)
        ensures
            r == *self,
    {
        FileId { path: self.path.clone() }
    }
}

/// Source position metadata carried for round-trip fidelity.
#[derive(Clone, Copy)]
pub struct SourceInfo {
    pub line: i32,
}

#[derive(Clone, Copy)]
pub struct Position {
    pub start: SourceInfo,
}

#[derive(Clone, Copy)]
pub enum ListEnumType {
    Unordered,
    Arabic,
    LowerAlpha,
    UpperAlpha,
    LowerRoman,
    UpperRoman,
}

pub struct Code {
    pub lang: Option<String>,
    pub caption: Option<String>,
    pub copyable: bool,
    pub emphasize_lines: Option<Vec<(i32, i32)>>,
    pub value: String,
    pub linenos: bool,
    pub lineno_start: Option<i32>,
    pub source: Option<String>,
}

pub struct Footnote {
    pub id: String,
    pub name: Option<String>,
}

pub struct FootnoteReference {
    pub id: String,
    pub refname: Option<String>,
}

pub struct SubstitutionDefinition {
    pub name: String,
}

pub struct SubstitutionReference {
    pub name: String,
}

pub struct BlockSubstitutionReference {
    pub name: String,
}

pub struct Root {
    pub fileid: FileId,
    pub options: bson::Bson,
}

pub struct Heading {
    pub id: String,
}

pub struct DefinitionListItem {
    pub term: Vec<Node>,
}

pub struct List {
    pub enumtype: ListEnumType,
    pub startat: Option<i32>,
}

pub struct Directive {
    pub domain: String,
    pub name: String,
    pub argument: Vec<Node>,
    pub options: bson::Bson,
}

pub struct TocTreeDirectiveEntry {
    pub title: Option<String>,
    pub url: Option<String>,
    pub slug: Option<String>,
    pub ref_project: Option<String>,
}

pub struct TocTreeDirective {
    pub directive: Directive,
    pub entries: Vec<Node>,
}

/// A definable anchor: its role (`domain` and `name`) and, after the
/// resolution pass, its unique HTML-safe anchor string.
pub struct Target {
    pub domain: String,
    pub name: String,
    pub html_id: Option<String>,
    pub options: Option<bson::Bson>,
}

/// One identifier set under a Target; the node's children carry the
/// optional title content.
pub struct TargetIdentifier {
    pub ids: Vec<String>,
}

pub struct InlineTarget {
    pub target: Target,
    pub children: Vec<Node>,
}

pub struct Reference {
    pub refuri: String,
    pub refname: String,
}

pub struct NamedReference {
    pub refname: String,
    pub refuri: String,
}

pub struct Role {
    pub domain: String,
    pub name: String,
    pub target: String,
    pub flag: String,
}

/// A cross-reference use site; `fileid` holds the already-resolved
/// `(file id, anchor)` pair, if any.
pub struct RefRole {
    pub role: Role,
    pub children: Vec<Node>,
    pub fileid: Option<(String, String)>,
    pub url: Option<String>,
}

pub struct Text {
    pub value: String,
}

pub struct Field {
    pub name: String,
    pub label: Option<String>,
}

pub struct Transition {}

/// The closed union of document-element variants. Variants whose only
/// content is their child list carry no payload; the children live on
/// the enclosing `Node`.
pub enum NodeData {
    Code(Code),
    Comment,
    Label,
    Section,
    Paragraph,
    Footnote(Footnote),
    FootnoteReference(FootnoteReference),
    SubstitutionDefinition(SubstitutionDefinition),
    SubstitutionReference(SubstitutionReference),
    Root(Root),
    Heading(Heading),
    DefinitionListItem(DefinitionListItem),
    DefinitionList,
    ListItem,
    List(List),
    Line,
    LineBlock,
    Directive(Directive),
    DirectiveArgument,
    Target(Target),
    TargetIdentifier(TargetIdentifier),
    InlineTarget(InlineTarget),
    Reference(Reference),
    NamedReference(NamedReference),
    Role(Role),
    RefRole(RefRole),
    Text(Text),
    Literal,
    Emphasis,
    Strong,
    Field(Field),
    FieldList,
    Transition(Transition),
}

/// One AST node: its variant payload, its traversable children in
/// stored order, and its source position.
pub struct Node {
    pub data: NodeData,
    pub children: Vec<Node>,
    pub position: Position,
}

pub struct StaticAssetReference {
    pub checksum: String,
    pub key: String,
}

pub struct Facet {
    pub category: String,
    pub value: String,
    pub sub_facets: Option<Vec<Facet>>,
    pub display_name: String,
}

/// One parsed source file.
pub struct Document {
    pub page_id: String,
    pub filename: FileId,
    pub ast: Node,
    pub source: String,
    pub static_assets: Vec<StaticAssetReference>,
    pub facets: Option<Vec<Facet>>,
}

/// The mathematical image of a `Target` payload.
pub ghost struct TargetV {
    pub domain: Seq<char>,
    pub name: Seq<char>,
    pub html_id: Option<Seq<char>>,
    pub options: Option<bson::Bson>,
}

/// The mathematical image of a `Role` payload.
pub ghost struct RoleV {
    pub domain: Seq<char>,
    pub name: Seq<char>,
    pub target: Seq<char>,
    pub flag: Seq<char>,
}

/// The mathematical image of a node's variant payload: strings become
/// character sequences, node vectors become sequences of node images,
/// opaque option payloads stay as they are.
pub ghost enum NodeDataV {
    Code {
        lang: Option<Seq<char>>,
        caption: Option<Seq<char>>,
        copyable: bool,
        emphasize_lines: Option<Seq<(i32, i32)>>,
        value: Seq<char>,
        linenos: bool,
        lineno_start: Option<i32>,
        source: Option<Seq<char>>,
    },
    Comment,
    Label,
    Section,
    Paragraph,
    Footnote { id: Seq<char>, name: Option<Seq<char>> },
    FootnoteReference { id: Seq<char>, refname: Option<Seq<char>> },
    SubstitutionDefinition { name: Seq<char> },
    SubstitutionReference { name: Seq<char> },
    Root { fileid: Seq<char>, options: bson::Bson },
    Heading { id: Seq<char> },
    DefinitionListItem { term: Seq<NodeV> },
    DefinitionList,
    ListItem,
    List { enumtype: ListEnumType, startat: Option<i32> },
    Line,
    LineBlock,
    Directive { domain: Seq<char>, name: Seq<char>, argument: Seq<NodeV>, options: bson::Bson },
    DirectiveArgument,
    Target { target: TargetV },
    TargetIdentifier { ids: Seq<Seq<char>> },
    InlineTarget { target: TargetV, children: Seq<NodeV> },
    Reference { refuri: Seq<char>, refname: Seq<char> },
    NamedReference { refname: Seq<char>, refuri: Seq<char> },
    Role { role: RoleV },
    RefRole {
        role: RoleV,
        children: Seq<NodeV>,
        fileid: Option<(Seq<char>, Seq<char>)>,
        url: Option<Seq<char>>,
    },
    Text { value: Seq<char> },
    Literal,
    Emphasis,
    Strong,
    Field { name: Seq<char>, label: Option<Seq<char>> },
    FieldList,
    Transition,
}

/// The mathematical image of one node: its payload image, its child
/// images in stored order, and its source line.
pub ghost struct NodeV {
    pub data: NodeDataV,
    pub children: Seq<NodeV>,
    pub line: i32,
}

pub open spec fn target_v(t: Target) -> TargetV {
    TargetV {
        domain: t.domain@,
        name: t.name@,
        html_id: t.html_id.deep_view(),
        options: t.options,
    }
}

pub open spec fn role_v(r: Role) -> RoleV {
    RoleV { domain: r.domain@, name: r.name@, target: r.target@, flag: r.flag@ }
}

pub open spec fn data_v(d: NodeData) -> NodeDataV
    decreases d,
{
    match d {
        NodeData::Code(c) => NodeDataV::Code {
            lang: c.lang.deep_view(),
            caption: c.caption.deep_view(),
            copyable: c.copyable,
            emphasize_lines: match c.emphasize_lines {
                Some(v) => Some(v@),
                None => None,
            },
            value: c.value@,
            linenos: c.linenos,
            lineno_start: c.lineno_start,
            source: c.source.deep_view(),
        },
        NodeData::Comment => NodeDataV::Comment,
        NodeData::Label => NodeDataV::Label,
        NodeData::Section => NodeDataV::Section,
        NodeData::Paragraph => NodeDataV::Paragraph,
        NodeData::Footnote(f) => NodeDataV::Footnote { id: f.id@, name: f.name.deep_view() },
        NodeData::FootnoteReference(f) => NodeDataV::FootnoteReference {
            id: f.id@,
            refname: f.refname.deep_view(),
        },
        NodeData::SubstitutionDefinition(s) => NodeDataV::SubstitutionDefinition { name: s.name@ },
        NodeData::SubstitutionReference(s) => NodeDataV::SubstitutionReference { name: s.name@ },
        NodeData::Root(r) => NodeDataV::Root { fileid: r.fileid@, options: r.options },
        NodeData::Heading(h) => NodeDataV::Heading { id: h.id@ },
        NodeData::DefinitionListItem(d) => NodeDataV::DefinitionListItem {
            term: children_v(d.term@),
        },
        NodeData::DefinitionList => NodeDataV::DefinitionList,
        NodeData::ListItem => NodeDataV::ListItem,
        NodeData::List(l) => NodeDataV::List { enumtype: l.enumtype, startat: l.startat },
        NodeData::Line => NodeDataV::Line,
        NodeData::LineBlock => NodeDataV::LineBlock,
        NodeData::Directive(d) => NodeDataV::Directive {
            domain: d.domain@,
            name: d.name@,
            argument: children_v(d.argument@),
            options: d.options,
        },
        NodeData::DirectiveArgument => NodeDataV::DirectiveArgument,
        NodeData::Target(t) => NodeDataV::Target { target: target_v(t) },
        NodeData::TargetIdentifier(t) => NodeDataV::TargetIdentifier { ids: t.ids.deep_view() },
        NodeData::InlineTarget(t) => NodeDataV::InlineTarget {
            target: target_v(t.target),
            children: children_v(t.children@),
        },
        NodeData::Reference(r) => NodeDataV::Reference { refuri: r.refuri@, refname: r.refname@ },
        NodeData::NamedReference(r) => NodeDataV::NamedReference {
            refname: r.refname@,
            refuri: r.refuri@,
        },
        NodeData::Role(r) => NodeDataV::Role { role: role_v(r) },
        NodeData::RefRole(r) => NodeDataV::RefRole {
            role: role_v(r.role),
            children: children_v(r.children@),
            fileid: match r.fileid {
                Some(p) => Some((p.0@, p.1@)),
                None => None,
            },
            url: r.url.deep_view(),
        },
        NodeData::Text(t) => NodeDataV::Text { value: t.value@ },
        NodeData::Literal => NodeDataV::Literal,
        NodeData::Emphasis => NodeDataV::Emphasis,
        NodeData::Strong => NodeDataV::Strong,
        NodeData::Field(f) => NodeDataV::Field { name: f.name@, label: f.label.deep_view() },
        NodeData::FieldList => NodeDataV::FieldList,
        NodeData::Transition(_) => NodeDataV::Transition,
    }
}

pub open spec fn children_v(s: Seq<Node>) -> Seq<NodeV>
    decreases s,
{
    if s.len() == 0 {
        Seq::empty()
    } else {
        children_v(s.drop_last()).push(node_v(s.last()))
    }
}

pub open spec fn node_v(n: Node) -> NodeV
    decreases n,
{
    NodeV { data: data_v(n.data), children: children_v(n.children@), line: n.position.start.line }
}

impl View for Node {
    type V = NodeV;

    open spec fn view(&self) -> NodeV {
        node_v(*self)
    }
}

fn clone_opt_string(o: &Option<String>) -> (r: Option<String>)
    ensures
        r == *o,
{
    match o {
        Some(s) => Some(s.clone()),
        None => None,
    }
}

fn clone_opt_i32(o: &Option<i32>) -> (r: Option<i32>)
    ensures
        r == *o,
{
    match o {
        Some(x) => Some(*x),
        None => None,
    }
}

fn clone_opt_string_pair(o: &Option<(String, String)>) -> (r: Option<(String, String)>)
    ensures
        r == *o,
{
    match o {
        Some(p) => Some((p.0.clone(), p.1.clone())),
        None => None,
    }
}

fn clone_opt_bson(o: &Option<bson::Bson>) -> (r: Option<bson::Bson>)
    ensures
        r == *o,
{
    match o {
        Some(b) => Some(clone_bson_value(b)),
        None => None,
    }
}

/// The image of an optional line-range list.
pub open spec fn pairs_v(o: Option<Vec<(i32, i32)>>) -> Option<Seq<(i32, i32)>> {
    match o {
        Some(v) => Some(v@),
        None => None,
    }
}

fn clone_opt_pairs(o: &Option<Vec<(i32, i32)>>) -> (r: Option<Vec<(i32, i32)>>)
    ensures
        pairs_v(r) == pairs_v(*o),
{
    match o {
        Some(v) => {
            let mut out: Vec<(i32, i32)> = Vec::new();
            let mut i: usize = 0;
            while i < v.len()
                invariant
                    i <= v.len(),
                    out@ =~= v@.take(i as int),
                decreases v.len() - i,
            {
                out.push(v[i]);
                i = i + 1;
            }
            assert(out@ =~= v@);
            Some(out)
        },
        None => None,
    }
}

fn clone_string_vec(v: &Vec<String>) -> (r: Vec<String>)
    ensures
        r.deep_view() == v.deep_view(),
{
    let mut out: Vec<String> = Vec::new();
    let mut i: usize = 0;
    while i < v.len()
        invariant
            i <= v.len(),
            out@.len() == i,
            forall|j: int| 0 <= j < i ==> out@[j]@ == #[trigger] v@[j]@,
        decreases v.len() - i,
    {
        out.push(v[i].clone());
        i = i + 1;
    }
    assert forall|j: int| 0 <= j < v@.len() implies out.deep_view()[j] == #[trigger] v.deep_view()[j] by {
        assert(out.deep_view()[j] == out@[j]@);
        assert(v.deep_view()[j] == v@[j]@);
    }
    assert(out.deep_view() =~= v.deep_view());
    out
}

fn duplicate_target(t: &Target) -> (r: Target)
    ensures
        target_v(r) == target_v(*t),
{
    Target {
        domain: t.domain.clone(),
        name: t.name.clone(),
        html_id: clone_opt_string(&t.html_id),
        options: clone_opt_bson(&t.options),
    }
}

fn duplicate_role(r: &Role) -> (r2: Role)
    ensures
        r2 == *r,
{
    Role {
        domain: r.domain.clone(),
        name: r.name.clone(),
        target: r.target.clone(),
        flag: r.flag.clone(),
    }
}

/// Copies a child list; the copy has the same image.
pub fn duplicate_nodes(v: &Vec<Node>) -> (r: Vec<Node>)
    ensures
        children_v(r@) == children_v(v@),
        r.len() == v.len(),
    decreases v@,
{
    let mut out: Vec<Node> = Vec::new();
    let mut i: usize = 0;
    while i < v.len()
        invariant
            i <= v.len(),
            out@.len() == i,
            children_v(out@) == children_v(v@.take(i as int)),
        decreases v.len() - i,
    {
        let ghost prev = out@;
        let child = duplicate_node(&v[i]);
        out.push(child);
        proof {
            assert(out@.drop_last() =~= prev);
            assert(children_v(out@) == children_v(prev).push(node_v(child)));
            let t1 = v@.take(i + 1);
            assert(t1.drop_last() =~= v@.take(i as int));
            assert(t1.last() == v@[i as int]);
            assert(children_v(t1) == children_v(v@.take(i as int)).push(node_v(v@[i as int])));
        }
        i = i + 1;
    }
    assert(v@.take(v.len() as int) =~= v@);
    out
}

fn duplicate_data(d: &NodeData) -> (r: NodeData)
    ensures
        data_v(r) == data_v(*d),
    decreases *d,
{
    match d {
        NodeData::Code(c) => NodeData::Code(
            Code {
                lang: clone_opt_string(&c.lang),
                caption: clone_opt_string(&c.caption),
                copyable: c.copyable,
                emphasize_lines: clone_opt_pairs(&c.emphasize_lines),
                value: c.value.clone(),
                linenos: c.linenos,
                lineno_start: clone_opt_i32(&c.lineno_start),
                source: clone_opt_string(&c.source),
            },
        ),
        NodeData::Comment => NodeData::Comment,
        NodeData::Label => NodeData::Label,
        NodeData::Section => NodeData::Section,
        NodeData::Paragraph => NodeData::Paragraph,
        NodeData::Footnote(f) => NodeData::Footnote(
            Footnote { id: f.id.clone(), name: clone_opt_string(&f.name) },
        ),
        NodeData::FootnoteReference(f) => NodeData::FootnoteReference(
            FootnoteReference { id: f.id.clone(), refname: clone_opt_string(&f.refname) },
        ),
        NodeData::SubstitutionDefinition(s) => NodeData::SubstitutionDefinition(
            SubstitutionDefinition { name: s.name.clone() },
        ),
        NodeData::SubstitutionReference(s) => NodeData::SubstitutionReference(
            SubstitutionReference { name: s.name.clone() },
        ),
        NodeData::Root(r) => NodeData::Root(
            Root { fileid: r.fileid.duplicate(), options: clone_bson_value(&r.options) },
        ),
        NodeData::Heading(h) => NodeData::Heading(Heading { id: h.id.clone() }),
        NodeData::DefinitionListItem(x) => NodeData::DefinitionListItem(
            DefinitionListItem { term: duplicate_nodes(&x.term) },
        ),
        NodeData::DefinitionList => NodeData::DefinitionList,
        NodeData::ListItem => NodeData::ListItem,
        NodeData::List(l) => NodeData::List(
            List { enumtype: l.enumtype, startat: clone_opt_i32(&l.startat) },
        ),
        NodeData::Line => NodeData::Line,
        NodeData::LineBlock => NodeData::LineBlock,
        NodeData::Directive(x) => NodeData::Directive(
            Directive {
                domain: x.domain.clone(),
                name: x.name.clone(),
                argument: duplicate_nodes(&x.argument),
                options: clone_bson_value(&x.options),
            },
        ),
        NodeData::DirectiveArgument => NodeData::DirectiveArgument,
        NodeData::Target(t) => NodeData::Target(duplicate_target(t)),
        NodeData::TargetIdentifier(t) => NodeData::TargetIdentifier(
            TargetIdentifier { ids: clone_string_vec(&t.ids) },
        ),
        NodeData::InlineTarget(t) => NodeData::InlineTarget(
            InlineTarget {
                target: duplicate_target(&t.target),
                children: duplicate_nodes(&t.children),
            },
        ),
        NodeData::Reference(x) => NodeData::Reference(
            Reference { refuri: x.refuri.clone(), refname: x.refname.clone() },
        ),
        NodeData::NamedReference(x) => NodeData::NamedReference(
            NamedReference { refname: x.refname.clone(), refuri: x.refuri.clone() },
        ),
        NodeData::Role(x) => NodeData::Role(duplicate_role(x)),
        NodeData::RefRole(x) => NodeData::RefRole(
            RefRole {
                role: duplicate_role(&x.role),
                children: duplicate_nodes(&x.children),
                fileid: clone_opt_string_pair(&x.fileid),
                url: clone_opt_string(&x.url),
            },
        ),
        NodeData::Text(t) => NodeData::Text(Text { value: t.value.clone() }),
        NodeData::Literal => NodeData::Literal,
        NodeData::Emphasis => NodeData::Emphasis,
        NodeData::Strong => NodeData::Strong,
        NodeData::Field(f) => NodeData::Field(
            Field { name: f.name.clone(), label: clone_opt_string(&f.label) },
        ),
        NodeData::FieldList => NodeData::FieldList,
        NodeData::Transition(_) => NodeData::Transition(Transition {  }),
    }
}

/// Copies a whole subtree; the copy has the same image.
pub fn duplicate_node(n: &Node) -> (r: Node)
    ensures
        node_v(r) == node_v(*n),
    decreases *n,
{
    Node {
        data: duplicate_data(&n.data),
        children: duplicate_nodes(&n.children),
        position: n.position,
    }
}

/// The image of a node sequence is the pointwise image.
pub proof fn lemma_children_v(s: Seq<Node>)
    ensures
        children_v(s).len() == s.len(),
        forall|i: int| 0 <= i < s.len() ==> children_v(s)[i] == node_v(#[trigger] s[i]),
    decreases s,
{
    if s.len() > 0 {
        lemma_children_v(s.drop_last());
        assert forall|i: int| 0 <= i < s.len() implies children_v(s)[i] == node_v(
            #[trigger] s[i],
        ) by {
            if i < s.len() - 1 {
                assert(s.drop_last()[i] == s[i]);
            } else {
                assert(s.last() == s[i]);
            }
        }
    }
}

} // verus!
