//! Reading an XBEL document: a state machine over XML events that builds the
//! ordered tree, and the driver that feeds it the events of quick-xml.
use vstd::prelude::*;
use crate::error::{AppError, ErrorV, validation};
use crate::text::utf8_len;
use crate::domain::TreeV;
use crate::xbel::{NodeKind, ParsedNode, ParsedDocument, XNode, XDoc, nodes_v, opt_view, MAX_TREE_DEPTH, MAX_TREE_NODES, MAX_URL_BYTES};

verus! {

/// One attribute of a start tag: its key and its decoded, unescaped value, or
/// the error met while reading the attribute list.
pub type XmlAttr = Result<(Vec<u8>, Result<String, String>), String>;

/// The value of an `XmlAttr`.
pub type AttrV = Result<(Seq<u8>, Result<Seq<char>, Seq<char>>), Seq<char>>;

/// An XML event as the reader reports it.
#[derive(Debug)]
pub enum XmlToken {
    Start(Vec<u8>, Vec<XmlAttr>),
    Empty(Vec<u8>, Vec<XmlAttr>),
    End(Vec<u8>),
    Eof,
    Other,
    Error(String),
}

/// The value of an `XmlToken`.
pub enum TokV {
    Start(Seq<u8>, Seq<AttrV>),
    Empty(Seq<u8>, Seq<AttrV>),
    End(Seq<u8>),
    Eof,
    Other,
    Error(Seq<char>),
}

pub open spec fn attr_v(a: XmlAttr) -> AttrV {
    match a {
        Ok((k, v)) => Ok(
            (
                k@,
                match v {
                    Ok(s) => Ok(s@),
                    Err(m) => Err(m@),
                },
            ),
        ),
        Err(m) => Err(m@),
    }
}

pub open spec fn attrs_v(v: Seq<XmlAttr>) -> Seq<AttrV> {
    Seq::new(v.len(), |i: int| attr_v(v[i]))
}

impl XmlToken {
    pub open spec fn tv(&self) -> TokV {
        match self {
            XmlToken::Start(n, a) => TokV::Start(n@, attrs_v(a@)),
            XmlToken::Empty(n, a) => TokV::Empty(n@, attrs_v(a@)),
            XmlToken::End(n) => TokV::End(n@),
            XmlToken::Eof => TokV::Eof,
            XmlToken::Other => TokV::Other,
            XmlToken::Error(m) => TokV::Error(m@),
        }
    }
}

/// The element names that XBEL reading tells apart.
#[derive(PartialEq, Eq, Structural, Clone, Copy)]
pub enum Tag {
    Xbel,
    Folder,
    Bookmark,
    Separator,
    Title,
    Desc,
    Unknown,
}

pub open spec fn xbel_name() -> Seq<u8> { seq![120u8, 98u8, 101u8, 108u8] }
pub open spec fn folder_name() -> Seq<u8> { seq![102u8, 111u8, 108u8, 100u8, 101u8, 114u8] }
pub open spec fn bookmark_name() -> Seq<u8> { seq![98u8, 111u8, 111u8, 107u8, 109u8, 97u8, 114u8, 107u8] }
pub open spec fn separator_name() -> Seq<u8> { seq![115u8, 101u8, 112u8, 97u8, 114u8, 97u8, 116u8, 111u8, 114u8] }
pub open spec fn title_name() -> Seq<u8> { seq![116u8, 105u8, 116u8, 108u8, 101u8] }
pub open spec fn desc_name() -> Seq<u8> { seq![100u8, 101u8, 115u8, 99u8] }
pub open spec fn href_name() -> Seq<u8> { seq![104u8, 114u8, 101u8, 102u8] }
pub open spec fn id_name() -> Seq<u8> { seq![105u8, 100u8] }

/// Which XBEL element a name denotes.
pub open spec fn tag_of(n: Seq<u8>) -> Tag {
    if n == xbel_name() { Tag::Xbel }
    else if n == folder_name() { Tag::Folder }
    else if n == bookmark_name() { Tag::Bookmark }
    else if n == separator_name() { Tag::Separator }
    else if n == title_name() { Tag::Title }
    else if n == desc_name() { Tag::Desc }
    else { Tag::Unknown }
}

fn bytes_equal(a: &[u8], b: &[u8]) -> (r: bool)
    ensures
        r == (a@ == b@),
{
    if a.len() != b.len() {
        return false;
    }
    let mut i: usize = 0;
    while i < a.len()
        invariant
            a@.len() == b@.len(),
            i <= a@.len(),
            forall|j: int| 0 <= j < i ==> a@[j] == b@[j],
        decreases a.len() - i,
    {
        if a[i] != b[i] {
            return false;
        }
        i = i + 1;
    }
    assert(a@ =~= b@);
    true
}

/// Tells which XBEL element the name `n` denotes.
pub fn classify_name(n: &[u8]) -> (t: Tag)
    ensures
        t == tag_of(n@),
{
    let xbel: [u8; 4] = [120u8, 98u8, 101u8, 108u8];
    let folder: [u8; 6] = [102u8, 111u8, 108u8, 100u8, 101u8, 114u8];
    let bookmark: [u8; 8] = [98u8, 111u8, 111u8, 107u8, 109u8, 97u8, 114u8, 107u8];
    let separator: [u8; 9] = [115u8, 101u8, 112u8, 97u8, 114u8, 97u8, 116u8, 111u8, 114u8];
    let title: [u8; 5] = [116u8, 105u8, 116u8, 108u8, 101u8];
    let desc: [u8; 4] = [100u8, 101u8, 115u8, 99u8];
    assert(xbel@ =~= xbel_name());
    assert(folder@ =~= folder_name());
    assert(bookmark@ =~= bookmark_name());
    assert(separator@ =~= separator_name());
    assert(title@ =~= title_name());
    assert(desc@ =~= desc_name());
    if bytes_equal(n, &xbel) { Tag::Xbel }
    else if bytes_equal(n, &folder) { Tag::Folder }
    else if bytes_equal(n, &bookmark) { Tag::Bookmark }
    else if bytes_equal(n, &separator) { Tag::Separator }
    else if bytes_equal(n, &title) { Tag::Title }
    else if bytes_equal(n, &desc) { Tag::Desc }
    else { Tag::Unknown }
}


/// The state of XBEL reading between two events.
pub struct BuildState {
    pub stack: Seq<XNode>,
    pub roots: Seq<XNode>,
    pub title: Seq<char>,
    pub count: nat,
    pub saw_xbel: bool,
    pub inside_xbel: bool,
    pub finished_xbel: bool,
}

/// What reading needs next after an event.
#[derive(Debug, PartialEq, Eq, Structural, Clone, Copy)]
pub enum Flow {
    Continue,
    ReadTitle,
    ReadDesc,
    Done,
}

pub open spec fn xml_message(m: Seq<char>) -> Seq<char> {
    "invalid XBEL: "@ + m
}

/// The first attribute named `key`, or the error met before it.
pub open spec fn spec_attribute(attrs: Seq<AttrV>, key: Seq<u8>) -> Result<Option<Seq<char>>, ErrorV>
    decreases attrs.len(),
{
    if attrs.len() == 0 {
        Ok(None)
    } else {
        match attrs[0] {
            Err(m) => Err(ErrorV::Validation(m)),
            Ok((k, v)) => if k == key {
                match v {
                    Ok(s) => Ok(Some(s)),
                    Err(m) => Err(ErrorV::Validation(xml_message(m))),
                }
            } else {
                spec_attribute(attrs.drop_first(), key)
            },
        }
    }
}

pub open spec fn leaf(kind: NodeKind, id: Option<Seq<char>>, url: Option<Seq<char>>) -> XNode {
    XNode {
        external_id: id,
        kind,
        title: Seq::empty(),
        url,
        description: Seq::empty(),
        children: Seq::empty(),
    }
}

/// The node that a folder, bookmark or separator tag opens.
pub open spec fn spec_element(attrs: Seq<AttrV>, kind: NodeKind) -> Result<XNode, ErrorV> {
    if kind == NodeKind::Bookmark {
        match spec_attribute(attrs, href_name()) {
            Err(e) => Err(e),
            Ok(h) => {
                let u = match h {
                    Some(s) => s,
                    None => Seq::empty(),
                };
                if utf8_len(u) == 0 || utf8_len(u) > 8000 {
                    Err(ErrorV::Validation("bookmark URL is invalid"@))
                } else {
                    match spec_attribute(attrs, id_name()) {
                        Err(e) => Err(e),
                        Ok(id) => Ok(leaf(kind, id, Some(u))),
                    }
                }
            },
        }
    } else {
        match spec_attribute(attrs, id_name()) {
            Err(e) => Err(e),
            Ok(id) => Ok(leaf(kind, id, None)),
        }
    }
}

/// The limits on depth and node count.
pub open spec fn spec_limits(depth: nat, count: nat) -> Result<(), ErrorV> {
    if depth > 128 {
        Err(ErrorV::Validation("XBEL tree is too deep"@))
    } else if count > 100000 {
        Err(ErrorV::Validation("XBEL contains too many nodes"@))
    } else {
        Ok(())
    }
}

/// Attaches a finished node to the innermost open folder, or to the top level.
pub open spec fn append_node(st: BuildState, n: XNode) -> BuildState {
    if st.stack.len() > 0 {
        let p = st.stack.last();
        BuildState {
            stack: st.stack.drop_last().push(XNode { children: p.children.push(n), ..p }),
            ..st
        }
    } else {
        BuildState { roots: st.roots.push(n), ..st }
    }
}

pub open spec fn unbalanced() -> ErrorV {
    ErrorV::Validation("unbalanced XBEL tree"@)
}

pub open spec fn kind_of_tag(t: Tag) -> NodeKind {
    match t {
        Tag::Folder => NodeKind::Folder,
        Tag::Bookmark => NodeKind::Bookmark,
        _ => NodeKind::Separator,
    }
}

/// A node tag inside the root: counted, checked against the limits, then
/// either opened (`open` holds) or attached at once.
pub open spec fn spec_node(st: BuildState, attrs: Seq<AttrV>, kind: NodeKind, open: bool) -> Result<(BuildState, Flow), ErrorV> {
    if !st.inside_xbel {
        Err(ErrorV::Validation("node outside XBEL root"@))
    } else {
        let c = st.count + 1;
        match spec_limits(st.stack.len() + 1, c) {
            Err(e) => Err(e),
            Ok(_) => match spec_element(attrs, kind) {
                Err(e) => Err(e),
                Ok(n) => if open {
                    Ok((BuildState { stack: st.stack.push(n), count: c, ..st }, Flow::Continue))
                } else {
                    Ok((append_node(BuildState { count: c, ..st }, n), Flow::Continue))
                },
            },
        }
    }
}

/// The effect of one XML event on the reading state.
pub open spec fn spec_step(st: BuildState, t: TokV) -> Result<(BuildState, Flow), ErrorV> {
    match t {
        TokV::Start(n, attrs) => match tag_of(n) {
            Tag::Xbel => if st.saw_xbel || st.inside_xbel || st.finished_xbel || st.stack.len() > 0 {
                Err(ErrorV::Validation("invalid XBEL root"@))
            } else {
                Ok((BuildState { saw_xbel: true, inside_xbel: true, ..st }, Flow::Continue))
            },
            Tag::Folder => spec_node(st, attrs, NodeKind::Folder, true),
            Tag::Bookmark => spec_node(st, attrs, NodeKind::Bookmark, true),
            Tag::Title => if !st.inside_xbel {
                Err(ErrorV::Validation("title outside XBEL root"@))
            } else {
                Ok((st, Flow::ReadTitle))
            },
            Tag::Desc => if !st.inside_xbel {
                Err(ErrorV::Validation("description outside XBEL root"@))
            } else {
                Ok((st, Flow::ReadDesc))
            },
            _ => Ok((st, Flow::Continue)),
        },
        TokV::Empty(n, attrs) => match tag_of(n) {
            Tag::Separator => spec_node(st, attrs, NodeKind::Separator, false),
            Tag::Folder => spec_node(st, attrs, NodeKind::Folder, false),
            Tag::Bookmark => spec_node(st, attrs, NodeKind::Bookmark, false),
            _ => Ok((st, Flow::Continue)),
        },
        TokV::End(n) => match tag_of(n) {
            Tag::Folder | Tag::Bookmark => if st.stack.len() == 0 {
                Err(unbalanced())
            } else if st.stack.last().kind != kind_of_tag(tag_of(n)) {
                Err(ErrorV::Validation("mismatched XBEL node"@))
            } else {
                Ok((append_node(BuildState { stack: st.stack.drop_last(), ..st }, st.stack.last()), Flow::Continue))
            },
            Tag::Xbel => if !st.inside_xbel || st.stack.len() > 0 {
                Err(unbalanced())
            } else {
                Ok((BuildState { inside_xbel: false, finished_xbel: true, ..st }, Flow::Continue))
            },
            _ => Ok((st, Flow::Continue)),
        },
        TokV::Eof => Ok((st, Flow::Done)),
        TokV::Other => Ok((st, Flow::Continue)),
        TokV::Error(m) => Err(ErrorV::Validation(xml_message(m))),
    }
}

/// The effect of the text of a `title` (`is_title`) or `desc` element.
pub open spec fn spec_accept_text(st: BuildState, is_title: bool, txt: Result<Seq<char>, Seq<char>>) -> Result<BuildState, ErrorV> {
    match txt {
        Err(m) => Err(ErrorV::Validation(xml_message(m))),
        Ok(t) => if st.stack.len() > 0 {
            let l = st.stack.last();
            let l2 = if is_title { XNode { title: t, ..l } } else { XNode { description: t, ..l } };
            Ok(BuildState { stack: st.stack.drop_last().push(l2), ..st })
        } else if is_title {
            Ok(BuildState { title: t, ..st })
        } else {
            Ok(st)
        },
    }
}

/// The document that reading yields once the events are exhausted.
pub open spec fn spec_finish(st: BuildState) -> Result<XDoc, ErrorV> {
    if !st.saw_xbel || !st.finished_xbel || st.inside_xbel || st.stack.len() > 0 {
        Err(unbalanced())
    } else {
        Ok(XDoc { title: st.title, nodes: st.roots })
    }
}

pub open spec fn initial_state() -> BuildState {
    BuildState {
        stack: Seq::empty(),
        roots: Seq::empty(),
        title: Seq::empty(),
        count: 0,
        saw_xbel: false,
        inside_xbel: false,
        finished_xbel: false,
    }
}


pub open spec fn opt_str_result(r: Result<Option<String>, AppError>) -> Result<Option<Seq<char>>, ErrorV> {
    match r {
        Ok(o) => Ok(opt_view(o)),
        Err(e) => Err(e@),
    }
}

pub open spec fn node_result(r: Result<ParsedNode, AppError>) -> Result<XNode, ErrorV> {
    match r {
        Ok(n) => Ok(n.xv()),
        Err(e) => Err(e@),
    }
}

pub open spec fn doc_result(r: Result<ParsedDocument, AppError>) -> Result<XDoc, ErrorV> {
    match r {
        Ok(d) => Ok(d.xv()),
        Err(e) => Err(e@),
    }
}

/// The error for a message of the XML reader.
fn xml_error(msg: &String) -> (e: AppError)
    ensures
        e@ == ErrorV::Validation(xml_message(msg@)),
{
    let mut s = "invalid XBEL: ".to_owned();
    s.append(msg.as_str());
    AppError::Validation(s)
}

/// The value of the first attribute named `key`.
pub fn attribute(attrs: &Vec<XmlAttr>, key: &[u8]) -> (r: Result<Option<String>, AppError>)
    ensures
        opt_str_result(r) == spec_attribute(attrs_v(attrs@), key@),
{
    let ghost all = attrs_v(attrs@);
    let mut i: usize = 0;
    assert(all.skip(0) =~= all);
    while i < attrs.len()
        invariant
            i <= attrs@.len(),
            all == attrs_v(attrs@),
            spec_attribute(all, key@) == spec_attribute(all.skip(i as int), key@),
        decreases attrs.len() - i,
    {
        assert(all.skip(i as int)[0] == attr_v(attrs@[i as int]));
        assert(all.skip(i as int).drop_first() =~= all.skip(i + 1));
        match &attrs[i] {
            Err(m) => {
                return Err(AppError::Validation(m.clone()));
            },
            Ok((k, v)) => {
                if bytes_equal(k.as_slice(), key) {
                    return match v {
                        Ok(s) => Ok(Some(s.clone())),
                        Err(m) => Err(xml_error(m)),
                    };
                }
            },
        }
        i = i + 1;
    }
    assert(all.skip(i as int).len() == 0);
    Ok(None)
}

/// The node that a folder, bookmark or separator tag opens: a bookmark needs a
/// non-empty `href` of at most 8000 bytes; every node keeps its `id`.
pub fn parsed_element(attrs: &Vec<XmlAttr>, kind: NodeKind) -> (r: Result<ParsedNode, AppError>)
    ensures
        node_result(r) == spec_element(attrs_v(attrs@), kind),
{
    let href: [u8; 4] = [104u8, 114u8, 101u8, 102u8];
    let id: [u8; 2] = [105u8, 100u8];
    assert(href@ =~= href_name());
    assert(id@ =~= id_name());
    let url = if kind == NodeKind::Bookmark {
        let u = match attribute(attrs, &href) {
            Err(e) => {
                return Err(e);
            },
            Ok(Some(s)) => s,
            Ok(None) => String::new(),
        };
        let n = crate::text::byte_len(u.as_str());
        if n == 0 || n > MAX_URL_BYTES {
            return Err(validation("bookmark URL is invalid"));
        }
        Some(u)
    } else {
        None
    };
    let idk: &[u8] = &id;
    assert(idk@ == id_name());
    let external_id = match attribute(attrs, idk) {
        Err(e) => {
            return Err(e);
        },
        Ok(x) => x,
    };
    let node = ParsedNode {
        external_id,
        node_type: kind,
        title: String::new(),
        url,
        description: String::new(),
        children: Vec::new(),
    };
    assert(node.xv().children =~= Seq::<XNode>::empty());
    Ok(node)
}

/// Rejects a tree deeper than 128 levels or holding more than 100000 nodes.
pub fn validate_tree_limits(depth: usize, count: usize) -> (r: Result<(), AppError>)
    ensures
        match spec_limits(depth as nat, count as nat) {
            Ok(_) => r is Ok,
            Err(e) => r is Err && r->Err_0@ == e,
        },
{
    if depth > MAX_TREE_DEPTH {
        return Err(validation("XBEL tree is too deep"));
    }
    if count > MAX_TREE_NODES {
        return Err(validation("XBEL contains too many nodes"));
    }
    Ok(())
}

/// The state machine that turns XML events into an XBEL tree.
pub struct XbelBuilder {
    stack: Vec<ParsedNode>,
    roots: Vec<ParsedNode>,
    title: String,
    count: usize,
    saw_xbel: bool,
    inside_xbel: bool,
    finished_xbel: bool,
}

impl XbelBuilder {
    pub closed spec fn state(&self) -> BuildState {
        BuildState {
            stack: nodes_v(self.stack@),
            roots: nodes_v(self.roots@),
            title: self.title@,
            count: self.count as nat,
            saw_xbel: self.saw_xbel,
            inside_xbel: self.inside_xbel,
            finished_xbel: self.finished_xbel,
        }
    }

    /// The bounds that every reachable state keeps.
    pub closed spec fn wf(&self) -> bool {
        &&& self.stack@.len() <= 128
        &&& self.count <= 100000
    }

    /// A builder that has seen no event.
    pub fn new() -> (b: XbelBuilder)
        ensures
            b.state() == initial_state(),
            b.wf(),
    {
        let b = XbelBuilder {
            stack: Vec::new(),
            roots: Vec::new(),
            title: String::new(),
            count: 0,
            saw_xbel: false,
            inside_xbel: false,
            finished_xbel: false,
        };
        assert(b.state().stack =~= Seq::<XNode>::empty());
        assert(b.state().roots =~= Seq::<XNode>::empty());
        b
    }

    fn append(&mut self, n: ParsedNode)
        ensures
            final(self).state() == append_node(old(self).state(), n.xv()),
            final(self).stack@.len() == old(self).stack@.len(),
            final(self).count == old(self).count,
    {
        let ghost before = self.state();
        let ghost nv = n.xv();
        match self.stack.pop() {
            Some(mut parent) => {
                let ghost pv = parent.xv();
                parent.children.push(n);
                assert(parent.xv().children =~= pv.children.push(nv));
                assert(parent.xv() == XNode { children: pv.children.push(nv), ..pv });
                self.stack.push(parent);
                assert(self.state().stack =~= before.stack.drop_last().push(XNode { children: pv.children.push(nv), ..pv }));
            },
            None => {
                self.roots.push(n);
                assert(self.state().roots =~= before.roots.push(nv));
            },
        }
    }

    fn node(&mut self, attrs: &Vec<XmlAttr>, kind: NodeKind, open: bool) -> (r: Result<Flow, AppError>)
        requires
            old(self).wf(),
        ensures
            match spec_node(old(self).state(), attrs_v(attrs@), kind, open) {
                Ok((st, f)) => r == Ok::<Flow, AppError>(f) && final(self).state() == st && final(self).wf(),
                Err(e) => r is Err && r->Err_0@ == e,
            },
    {
        if !self.inside_xbel {
            return Err(validation("node outside XBEL root"));
        }
        let c = self.count + 1;
        if let Err(e) = validate_tree_limits(self.stack.len() + 1, c) {
            return Err(e);
        }
        let n = match parsed_element(attrs, kind) {
            Err(e) => {
                return Err(e);
            },
            Ok(n) => n,
        };
        self.count = c;
        if open {
            let ghost before = self.state();
            let ghost nv = n.xv();
            self.stack.push(n);
            assert(self.state().stack =~= before.stack.push(nv));
        } else {
            self.append(n);
        }
        Ok(Flow::Continue)
    }

    /// Takes one XML event.
    pub fn step(&mut self, tok: XmlToken) -> (r: Result<Flow, AppError>)
        requires
            old(self).wf(),
        ensures
            match spec_step(old(self).state(), tok.tv()) {
                Ok((st, f)) => r == Ok::<Flow, AppError>(f) && final(self).state() == st && final(self).wf(),
                Err(e) => r is Err && r->Err_0@ == e,
            },
    {
        match tok {
            XmlToken::Start(n, attrs) => match classify_name(n.as_slice()) {
                Tag::Xbel => {
                    if self.saw_xbel || self.inside_xbel || self.finished_xbel || self.stack.len() > 0 {
                        return Err(validation("invalid XBEL root"));
                    }
                    self.saw_xbel = true;
                    self.inside_xbel = true;
                    Ok(Flow::Continue)
                },
                Tag::Folder => self.node(&attrs, NodeKind::Folder, true),
                Tag::Bookmark => self.node(&attrs, NodeKind::Bookmark, true),
                Tag::Title => {
                    if !self.inside_xbel {
                        return Err(validation("title outside XBEL root"));
                    }
                    Ok(Flow::ReadTitle)
                },
                Tag::Desc => {
                    if !self.inside_xbel {
                        return Err(validation("description outside XBEL root"));
                    }
                    Ok(Flow::ReadDesc)
                },
                _ => Ok(Flow::Continue),
            },
            XmlToken::Empty(n, attrs) => match classify_name(n.as_slice()) {
                Tag::Separator => self.node(&attrs, NodeKind::Separator, false),
                Tag::Folder => self.node(&attrs, NodeKind::Folder, false),
                Tag::Bookmark => self.node(&attrs, NodeKind::Bookmark, false),
                _ => Ok(Flow::Continue),
            },
            XmlToken::End(n) => {
                let t = classify_name(n.as_slice());
                match t {
                    Tag::Folder | Tag::Bookmark => {
                        let ghost before = self.state();
                        let node = match self.stack.pop() {
                            Some(node) => node,
                            None => {
                                return Err(validation("unbalanced XBEL tree"));
                            },
                        };
                        let expected = if t == Tag::Folder { NodeKind::Folder } else { NodeKind::Bookmark };
                        if node.node_type != expected {
                            return Err(validation("mismatched XBEL node"));
                        }
                        assert(self.state().stack =~= before.stack.drop_last());
                        self.append(node);
                        Ok(Flow::Continue)
                    },
                    Tag::Xbel => {
                        if !self.inside_xbel || self.stack.len() > 0 {
                            return Err(validation("unbalanced XBEL tree"));
                        }
                        self.inside_xbel = false;
                        self.finished_xbel = true;
                        Ok(Flow::Continue)
                    },
                    _ => Ok(Flow::Continue),
                }
            },
            XmlToken::Eof => Ok(Flow::Done),
            XmlToken::Other => Ok(Flow::Continue),
            XmlToken::Error(m) => Err(xml_error(&m)),
        }
    }

    /// Takes the text of the `title` (`is_title`) or `desc` element that the
    /// last event opened.
    pub fn accept_text(&mut self, is_title: bool, txt: Result<String, String>) -> (r: Result<(), AppError>)
        requires
            old(self).wf(),
        ensures
            match spec_accept_text(old(self).state(), is_title, match txt { Ok(t) => Ok(t@), Err(m) => Err(m@) }) {
                Ok(st) => r is Ok && final(self).state() == st && final(self).wf(),
                Err(e) => r is Err && r->Err_0@ == e,
            },
    {
        match txt {
            Err(m) => Err(xml_error(&m)),
            Ok(t) => {
                let ghost before = self.state();
                let ghost tv = t@;
                match self.stack.pop() {
                    Some(mut last) => {
                        let ghost lv = last.xv();
                        if is_title {
                            last.title = t;
                            assert(last.xv() == XNode { title: tv, ..lv });
                        } else {
                            last.description = t;
                            assert(last.xv() == XNode { description: tv, ..lv });
                        }
                        let ghost l2 = last.xv();
                        self.stack.push(last);
                        assert(self.state().stack =~= before.stack.drop_last().push(l2));
                    },
                    None => {
                        if is_title {
                            self.title = t;
                        }
                    },
                }
                Ok(())
            },
        }
    }

    /// The document, once every event has been taken.
    pub fn finish(self) -> (r: Result<ParsedDocument, AppError>)
        ensures
            doc_result(r) == spec_finish(self.state()),
    {
        if !self.saw_xbel || !self.finished_xbel || self.inside_xbel || self.stack.len() > 0 {
            return Err(validation("unbalanced XBEL tree"));
        }
        Ok(ParsedDocument { title: self.title, nodes: self.roots })
    }
}


#[verifier::external_type_specification]
#[verifier::external_body]
#[verifier::reject_recursive_types(R)]
pub struct ExXmlReader<R>(quick_xml::Reader<R>);

/// The calls made on an XML reader so far: `None` for reading the next event,
/// `Some(name)` for reading the text of an element up to its end tag `name`.
pub type XmlCalls = Seq<Option<Seq<u8>>>;

/// A quick-xml reader over a UTF-8 document, with the document's bytes and
/// the calls made on the reader.
pub struct XmlCursor<'a> {
    reader: quick_xml::Reader<&'a [u8]>,
    source: Ghost<Seq<u8>>,
    calls: Ghost<XmlCalls>,
}

/// An XML event as quick-xml reports it: the name and the tag content (name
/// and attributes) of a start or empty tag, the name of an end tag, or the
/// error message.
pub enum RawXml {
    Start(Vec<u8>, String),
    Empty(Vec<u8>, String),
    End(Vec<u8>),
    Eof,
    Other,
    Error(String),
}

/// The value of a `RawXml`.
pub enum RawV {
    Start(Seq<u8>, Seq<char>),
    Empty(Seq<u8>, Seq<char>),
    End(Seq<u8>),
    Eof,
    Other,
    Error(Seq<char>),
}

impl RawXml {
    pub open spec fn rv(&self) -> RawV {
        match self {
            RawXml::Start(n, c) => RawV::Start(n@, c@),
            RawXml::Empty(n, c) => RawV::Empty(n@, c@),
            RawXml::End(n) => RawV::End(n@),
            RawXml::Eof => RawV::Eof,
            RawXml::Other => RawV::Other,
            RawXml::Error(m) => RawV::Error(m@),
        }
    }
}

/// Whether a start or empty tag's name is no longer, in bytes, than its tag
/// content, of which it is the first part.
pub open spec fn name_within(r: RawV) -> bool {
    match r {
        RawV::Start(n, c) => n.len() <= utf8_len(c),
        RawV::Empty(n, c) => n.len() <= utf8_len(c),
        _ => true,
    }
}

/// The event that `Reader::read_event` returns on `source` (read with text
/// trimming on) after `calls`.
pub uninterp spec fn xml_event(source: Seq<u8>, calls: XmlCalls) -> RawV;

/// The attributes that `Attributes::new(content, name_len)`, without the
/// duplicate check, yields: each key with its decoded and unescaped value.
pub uninterp spec fn xml_attrs(content: Seq<char>, name_len: nat) -> Seq<AttrV>;

/// An event with the attributes of its tag read out.
pub open spec fn cooked(r: RawV) -> TokV {
    match r {
        RawV::Start(n, c) => TokV::Start(n, xml_attrs(c, n.len())),
        RawV::Empty(n, c) => TokV::Empty(n, xml_attrs(c, n.len())),
        RawV::End(n) => TokV::End(n),
        RawV::Eof => TokV::Eof,
        RawV::Other => TokV::Other,
        RawV::Error(m) => TokV::Error(m),
    }
}

/// The raw text that `Reader::read_text` returns for the end tag `end` on
/// `source` after `calls`, or the reader's error message.
pub uninterp spec fn xml_text(source: Seq<u8>, calls: XmlCalls, end: Seq<u8>) -> Result<Seq<char>, Seq<char>>;

/// `Reader::buffer_position` on `source` after `calls`.
pub uninterp spec fn xml_position(source: Seq<u8>, calls: XmlCalls) -> nat;

/// `quick_xml::escape::unescape`: `raw` with the predefined entities and
/// character references replaced, or the escape error's message.
pub uninterp spec fn xml_unescaped(raw: Seq<char>) -> Result<Seq<char>, Seq<char>>;

/// `Reader::from_str` with `trim_text(true)`: a reader at the start of
/// `input`, on which no call has been made.
#[verifier::external_body]
fn xml_open<'a>(input: &'a str) -> (c: XmlCursor<'a>)
    ensures
        c.source@ == vstd::utf8::encode_utf8(input@),
        c.calls@ == Seq::<Option<Seq<u8>>>::empty(),
{
    let mut reader = quick_xml::Reader::from_str(input);
    reader.config_mut().trim_text(true);
    XmlCursor { reader, source: Ghost(vstd::utf8::encode_utf8(input@)), calls: Ghost(Seq::empty()) }
}

/// `Reader::read_event`: the next event. Every event but the end of input
/// and an error moves the reader forward within the input. A start or empty
/// tag's name is `BytesStart::name`, the first `name_len` bytes of its
/// content, and `String::from_utf8_lossy` of the content has at least as many
/// bytes as the content (it replaces bad sequences by the 3-byte U+FFFD), so
/// the name is no longer than the content's text.
#[verifier::external_body]
fn xml_next(c: &mut XmlCursor) -> (t: RawXml)
    ensures
        final(c).source == old(c).source,
        final(c).calls@ == old(c).calls@.push(None),
        t.rv() == xml_event(old(c).source@, old(c).calls@),
        name_within(t.rv()),
        xml_position(old(c).source@, final(c).calls@) <= old(c).source@.len(),
        !(t is Eof || t is Error) ==> xml_position(old(c).source@, final(c).calls@) > xml_position(old(c).source@, old(c).calls@),
{
    match c.reader.read_event() {
        Ok(quick_xml::events::Event::Start(s)) => RawXml::Start(s.name().as_ref().to_vec(), String::from_utf8_lossy(&s).into_owned()),
        Ok(quick_xml::events::Event::Empty(s)) => RawXml::Empty(s.name().as_ref().to_vec(), String::from_utf8_lossy(&s).into_owned()),
        Ok(quick_xml::events::Event::End(e)) => RawXml::End(e.name().as_ref().to_vec()),
        Ok(quick_xml::events::Event::Eof) => RawXml::Eof,
        Ok(_) => RawXml::Other,
        Err(e) => RawXml::Error(e.to_string()),
    }
}

/// `Attributes::new(content, name_len)` without the duplicate check: each
/// attribute's key with its value decoded and unescaped by the reader's
/// decoder, or the error message. The iterator slices `content`'s bytes from
/// `name_len` on, so `name_len` is at most their number.
#[verifier::external_body]
fn xml_attributes(c: &XmlCursor, content: &str, name_len: usize) -> (r: Vec<XmlAttr>)
    requires
        name_len <= utf8_len(content@),
    ensures
        attrs_v(r@) == xml_attrs(content@, name_len as nat),
{
    let d = c.reader.decoder();
    let mut it = quick_xml::events::attributes::Attributes::new(content, name_len);
    it.with_checks(false);
    it.map(|a| a.map(|a| (a.key.as_ref().to_vec(), a.decode_and_unescape_value(d).map(|v| v.into_owned()).map_err(|e| e.to_string()))).map_err(|e| e.to_string())).collect()
}

/// The event with the attributes of its tag read out.
fn cook(c: &XmlCursor, raw: RawXml) -> (t: XmlToken)
    requires
        name_within(raw.rv()),
    ensures
        t.tv() == cooked(raw.rv()),
{
    match raw {
        RawXml::Start(n, content) => {
            let a = xml_attributes(c, content.as_str(), n.len());
            XmlToken::Start(n, a)
        },
        RawXml::Empty(n, content) => {
            let a = xml_attributes(c, content.as_str(), n.len());
            XmlToken::Empty(n, a)
        },
        RawXml::End(n) => XmlToken::End(n),
        RawXml::Eof => XmlToken::Eof,
        RawXml::Other => XmlToken::Other,
        RawXml::Error(m) => XmlToken::Error(m),
    }
}

/// `Reader::read_text`: the raw text up to the end tag `end`, or the error
/// message. A successful read does not move the reader back.
#[verifier::external_body]
fn xml_read_text(c: &mut XmlCursor, end: &[u8]) -> (r: Result<String, String>)
    ensures
        final(c).source == old(c).source,
        final(c).calls@ == old(c).calls@.push(Some(end@)),
        match r { Ok(t) => Ok(t@), Err(m) => Err(m@) } == xml_text(old(c).source@, old(c).calls@, end@),
        xml_position(old(c).source@, final(c).calls@) <= old(c).source@.len(),
        r is Ok ==> xml_position(old(c).source@, final(c).calls@) >= xml_position(old(c).source@, old(c).calls@),
{
    c.reader.read_text(quick_xml::name::QName(end)).map(|t| t.into_owned()).map_err(|e| e.to_string())
}

/// `quick_xml::escape::unescape`, with the error message of a failure.
#[verifier::external_body]
fn xml_unescape(raw: &str) -> (r: Result<String, String>)
    ensures
        match r { Ok(t) => Ok(t@), Err(m) => Err(m@) } == xml_unescaped(raw@),
{
    quick_xml::escape::unescape(raw).map(|t| t.into_owned()).map_err(|e| quick_xml::Error::from(e).to_string())
}


/// The end tag whose text a `ReadTitle` (`is_title`) or `ReadDesc` step needs.
pub open spec fn text_name(is_title: bool) -> Seq<u8> {
    if is_title { title_name() } else { desc_name() }
}

/// Reading `source` from the reader state after `calls` and the builder state
/// `st`, for at most `fuel` events.
pub open spec fn xbel_run(source: Seq<u8>, calls: XmlCalls, st: BuildState, fuel: nat) -> Result<XDoc, ErrorV>
    decreases fuel,
{
    if fuel == 0 {
        Err(ErrorV::Internal(Seq::empty()))
    } else {
        let calls1 = calls.push(None);
        match spec_step(st, cooked(xml_event(source, calls))) {
            Err(e) => Err(e),
            Ok((s1, f)) => if f == Flow::Done {
                spec_finish(s1)
            } else if f == Flow::Continue {
                xbel_run(source, calls1, s1, (fuel - 1) as nat)
            } else {
                let is_title = f == Flow::ReadTitle;
                let name = text_name(is_title);
                let txt = match xml_text(source, calls1, name) {
                    Ok(raw) => xml_unescaped(raw),
                    Err(m) => Err(m),
                };
                match spec_accept_text(s1, is_title, txt) {
                    Err(e) => Err(e),
                    Ok(s2) => xbel_run(source, calls1.push(Some(name)), s2, (fuel - 1) as nat),
                }
            },
        }
    }
}

/// The XBEL document that `input` holds: its events, as quick-xml reads them,
/// run through the reading state machine. Every event but the last moves the
/// reader forward, so the run ends within one event per byte.
pub open spec fn spec_parse_xbel(input: Seq<char>) -> Result<XDoc, ErrorV> {
    let src = vstd::utf8::encode_utf8(input);
    xbel_run(src, Seq::empty(), initial_state(), src.len() + 1)
}

/// Parses an XBEL document into its title and ordered tree, rejecting
/// malformed XML, nodes outside the root, unbalanced or mismatched tags,
/// bookmarks without a usable URL, and trees over the depth and size limits.
pub fn parse_xbel(input: &str) -> (r: Result<ParsedDocument, AppError>)
    ensures
        doc_result(r) == spec_parse_xbel(input@),
{
    let mut c = xml_open(input);
    let mut b = XbelBuilder::new();
    let ghost src = c.source@;
    let ghost fuel0: nat = src.len() + 1;
    let ghost mut i: nat = 0;
    let title: [u8; 5] = [116u8, 105u8, 116u8, 108u8, 101u8];
    let desc: [u8; 4] = [100u8, 101u8, 115u8, 99u8];
    assert(title@ =~= title_name());
    assert(desc@ =~= desc_name());
    loop
        invariant
            c.source@ == src,
            src == vstd::utf8::encode_utf8(input@),
            fuel0 == src.len() + 1,
            title@ == title_name(),
            desc@ == desc_name(),
            b.wf(),
            i <= src.len(),
            i <= xml_position(src, c.calls@),
            spec_parse_xbel(input@) == xbel_run(src, c.calls@, b.state(), (fuel0 - i) as nat),
        decreases src.len() + 1 - i,
    {
        let ghost calls0 = c.calls@;
        let ghost st0 = b.state();
        let raw = xml_next(&mut c);
        let ghost is_end = raw is Eof || raw is Error;
        let tok = cook(&c, raw);
        match b.step(tok) {
            Err(e) => {
                return Err(e);
            },
            Ok(Flow::Done) => {
                return b.finish();
            },
            Ok(Flow::Continue) => {
                assert(!is_end);
            },
            Ok(f) => {
                assert(!is_end);
                let is_title = f == Flow::ReadTitle;
                let raw = if is_title {
                    xml_read_text(&mut c, &title)
                } else {
                    xml_read_text(&mut c, &desc)
                };
                let ok = raw.is_ok();
                let txt = match raw {
                    Ok(r) => xml_unescape(r.as_str()),
                    Err(m) => Err(m),
                };
                if let Err(e) = b.accept_text(is_title, txt) {
                    return Err(e);
                }
                assert(ok);
            },
        }
        proof {
            i = i + 1;
        }
    }
}


/// An event as the reading state machine takes it: a tag event, or the text
/// of a `title` (`true`) or `desc` element that the reader reads after its
/// start tag, unescaped.
pub enum XEv {
    Tok(TokV),
    Text(bool, Seq<char>),
}

/// One event applied to the reading state.
pub open spec fn ev_step(st: BuildState, e: XEv) -> Result<BuildState, ErrorV> {
    match e {
        XEv::Tok(t) => match spec_step(st, t) {
            Ok((s1, _)) => Ok(s1),
            Err(x) => Err(x),
        },
        XEv::Text(is_title, txt) => spec_accept_text(st, is_title, Ok(txt)),
    }
}

/// The events `evs` applied in order.
pub open spec fn run_evs(st: BuildState, evs: Seq<XEv>) -> Result<BuildState, ErrorV>
    decreases evs.len(),
{
    if evs.len() == 0 {
        Ok(st)
    } else {
        match ev_step(st, evs[0]) {
            Ok(s1) => run_evs(s1, evs.drop_first()),
            Err(x) => Err(x),
        }
    }
}

/// The document that reading the events `evs` from the start yields.
pub open spec fn read_events(evs: Seq<XEv>) -> Result<XDoc, ErrorV> {
    match run_evs(initial_state(), evs) {
        Ok(st) => spec_finish(st),
        Err(x) => Err(x),
    }
}

/// An attribute with its (unescaped) value.
pub open spec fn attr_of(key: Seq<u8>, value: Seq<char>) -> AttrV {
    Ok((key, Ok(value)))
}

/// The events of a `title` (`is_title`) or `desc` element holding `text`.
pub open spec fn text_evs(is_title: bool, text: Seq<char>) -> Seq<XEv> {
    seq![XEv::Tok(TokV::Start(text_name(is_title), Seq::empty())), XEv::Text(is_title, text)]
}

/// The events of the `desc` line, which is written only for a description.
pub open spec fn desc_evs(desc: Seq<char>) -> Seq<XEv> {
    if desc.len() == 0 { Seq::empty() } else { text_evs(false, desc) }
}

/// Whether a node is of a type that is written.
pub open spec fn written(t: TreeV) -> bool {
    t.node.node_type@ == "folder"@ || t.node.node_type@ == "bookmark"@ || t.node.node_type@ == "separator"@
}

/// The events that the XBEL of `t` (`node_xml`) consists of: a folder's
/// start tag with its id, its title, its description where it has one, its
/// children and its end tag; a bookmark's start tag with its URL and id, its
/// title and description, and its end tag; a separator's empty tag with its
/// id. A node of another type is not written.
pub open spec fn node_evs(t: TreeV) -> Seq<XEv>
    decreases t, 0nat,
{
    let n = t.node;
    if n.node_type@ == "folder"@ {
        seq![XEv::Tok(TokV::Start(folder_name(), seq![attr_of(id_name(), n.external_id@)]))]
            + text_evs(true, n.title@) + desc_evs(n.description@)
            + forest_evs(t.children, t.children.len() as int)
            + seq![XEv::Tok(TokV::End(folder_name()))]
    } else if n.node_type@ == "bookmark"@ {
        seq![XEv::Tok(TokV::Start(bookmark_name(),
            seq![attr_of(href_name(), crate::xbel_write::opt_text(n.url)), attr_of(id_name(), n.external_id@)]))]
            + text_evs(true, n.title@) + desc_evs(n.description@)
            + seq![XEv::Tok(TokV::End(bookmark_name()))]
    } else if n.node_type@ == "separator"@ {
        seq![XEv::Tok(TokV::Empty(separator_name(), seq![attr_of(id_name(), n.external_id@)]))]
    } else {
        Seq::empty()
    }
}

/// The events of the first `i` nodes of `ts`.
pub open spec fn forest_evs(ts: Seq<TreeV>, i: int) -> Seq<XEv>
    decreases ts, i,
{
    if i <= 0 || i > ts.len() {
        Seq::empty()
    } else {
        forest_evs(ts, i - 1) + node_evs(ts[i - 1])
    }
}

/// The events that the XBEL document written for `title` and `roots`
/// (`document_xml`) consists of: the XML declaration and the comment with the
/// highest id are neither tags nor text, so they are `Other` events.
pub open spec fn document_evs(title: Seq<char>, roots: Seq<TreeV>) -> Seq<XEv> {
    seq![XEv::Tok(TokV::Other),
        XEv::Tok(TokV::Start(xbel_name(), seq![attr_of(seq![118u8, 101u8, 114u8, 115u8, 105u8, 111u8, 110u8], "1.0"@)]))]
        + (if title.len() == 0 { Seq::empty() } else { text_evs(true, title) })
        + forest_evs(roots, roots.len() as int)
        + seq![XEv::Tok(TokV::Other), XEv::Tok(TokV::End(xbel_name())), XEv::Tok(TokV::Eof)]
}

/// The node that reading back the XBEL of `t` gives.
pub open spec fn read_node(t: TreeV) -> XNode
    decreases t, 0nat,
{
    let n = t.node;
    if n.node_type@ == "folder"@ {
        XNode {
            external_id: Some(n.external_id@),
            kind: NodeKind::Folder,
            title: n.title@,
            url: None,
            description: n.description@,
            children: read_forest(t.children, t.children.len() as int),
        }
    } else if n.node_type@ == "bookmark"@ {
        XNode {
            external_id: Some(n.external_id@),
            kind: NodeKind::Bookmark,
            title: n.title@,
            url: Some(crate::xbel_write::opt_text(n.url)),
            description: n.description@,
            children: Seq::empty(),
        }
    } else {
        leaf(NodeKind::Separator, Some(n.external_id@), None)
    }
}

/// The nodes that reading back the XBEL of the first `i` nodes of `ts`
/// gives: those of the written types, in order.
pub open spec fn read_forest(ts: Seq<TreeV>, i: int) -> Seq<XNode>
    decreases ts, i,
{
    if i <= 0 || i > ts.len() {
        Seq::empty()
    } else if written(ts[i - 1]) {
        read_forest(ts, i - 1).push(read_node(ts[i - 1]))
    } else {
        read_forest(ts, i - 1)
    }
}

/// The number of written nodes in `t` and below it.
pub open spec fn node_count(t: TreeV) -> nat
    decreases t, 0nat,
{
    if t.node.node_type@ == "folder"@ {
        1 + forest_count(t.children, t.children.len() as int)
    } else if written(t) {
        1
    } else {
        0
    }
}

pub open spec fn forest_count(ts: Seq<TreeV>, i: int) -> nat
    decreases ts, i,
{
    if i <= 0 || i > ts.len() { 0 } else { forest_count(ts, i - 1) + node_count(ts[i - 1]) }
}

/// The folder nesting of `t`: 1 for a written leaf, one more than its
/// deepest child for a folder.
pub open spec fn node_depth(t: TreeV) -> nat
    decreases t, 0nat,
{
    if t.node.node_type@ == "folder"@ {
        1 + forest_depth(t.children, t.children.len() as int)
    } else if written(t) {
        1
    } else {
        0
    }
}

pub open spec fn forest_depth(ts: Seq<TreeV>, i: int) -> nat
    decreases ts, i,
{
    if i <= 0 || i > ts.len() {
        0
    } else {
        let a = forest_depth(ts, i - 1);
        let b = node_depth(ts[i - 1]);
        if a >= b { a } else { b }
    }
}

/// Whether every written bookmark in `t` has a URL of 1 to 8000 bytes.
pub open spec fn node_urls_ok(t: TreeV) -> bool
    decreases t, 0nat,
{
    if t.node.node_type@ == "folder"@ {
        forest_urls_ok(t.children, t.children.len() as int)
    } else if t.node.node_type@ == "bookmark"@ {
        0 < utf8_len(crate::xbel_write::opt_text(t.node.url)) <= 8000
    } else {
        true
    }
}

pub open spec fn forest_urls_ok(ts: Seq<TreeV>, i: int) -> bool
    decreases ts, i,
{
    if i <= 0 || i > ts.len() { true } else { forest_urls_ok(ts, i - 1) && node_urls_ok(ts[i - 1]) }
}

/// `st` with `ns` attached, in order, to the innermost open folder or to the
/// top level, and `count` as its count.
pub open spec fn attach(st: BuildState, ns: Seq<XNode>, count: nat) -> BuildState {
    if st.stack.len() > 0 {
        let p = st.stack.last();
        BuildState {
            stack: st.stack.drop_last().push(XNode { children: p.children + ns, ..p }),
            count,
            ..st
        }
    } else {
        BuildState { roots: st.roots + ns, count, ..st }
    }
}

proof fn lemma_tag_names()
    ensures
        tag_of(xbel_name()) == Tag::Xbel,
        tag_of(folder_name()) == Tag::Folder,
        tag_of(bookmark_name()) == Tag::Bookmark,
        tag_of(separator_name()) == Tag::Separator,
        tag_of(title_name()) == Tag::Title,
        tag_of(desc_name()) == Tag::Desc,
        href_name() != id_name(),
{
    assert(folder_name() != xbel_name()) by { assert(folder_name().len() != xbel_name().len()); }
    assert(bookmark_name() != xbel_name()) by { assert(bookmark_name().len() != xbel_name().len()); }
    assert(bookmark_name() != folder_name()) by { assert(bookmark_name().len() != folder_name().len()); }
    assert(separator_name() != xbel_name()) by { assert(separator_name().len() != xbel_name().len()); }
    assert(separator_name() != folder_name()) by { assert(separator_name().len() != folder_name().len()); }
    assert(separator_name() != bookmark_name()) by { assert(separator_name().len() != bookmark_name().len()); }
    assert(title_name() != xbel_name()) by { assert(title_name().len() != xbel_name().len()); }
    assert(title_name() != folder_name()) by { assert(title_name().len() != folder_name().len()); }
    assert(title_name() != bookmark_name()) by { assert(title_name().len() != bookmark_name().len()); }
    assert(title_name() != separator_name()) by { assert(title_name().len() != separator_name().len()); }
    assert(desc_name() != xbel_name()) by { assert(desc_name()[0] != xbel_name()[0]); }
    assert(desc_name() != folder_name()) by { assert(desc_name().len() != folder_name().len()); }
    assert(desc_name() != bookmark_name()) by { assert(desc_name().len() != bookmark_name().len()); }
    assert(desc_name() != separator_name()) by { assert(desc_name().len() != separator_name().len()); }
    assert(desc_name() != title_name()) by { assert(desc_name().len() != title_name().len()); }
    assert(href_name() != id_name()) by { assert(href_name().len() != id_name().len()); }
}

/// Running `a` then `b` is running `a + b`.
proof fn lemma_run_concat(st: BuildState, a: Seq<XEv>, b: Seq<XEv>)
    ensures
        run_evs(st, a + b) == match run_evs(st, a) {
            Ok(s) => run_evs(s, b),
            Err(x) => Err(x),
        },
    decreases a.len(),
{
    if a.len() == 0 {
        assert(a + b =~= b);
    } else {
        assert((a + b)[0] == a[0]);
        assert((a + b).drop_first() =~= a.drop_first() + b);
        match ev_step(st, a[0]) {
            Ok(s1) => lemma_run_concat(s1, a.drop_first(), b),
            Err(_) => {},
        }
    }
}


proof fn lemma_run_one(st: BuildState, e: XEv)
    ensures
        run_evs(st, seq![e]) == ev_step(st, e),
{
    reveal_with_fuel(run_evs, 2);
    assert(seq![e].drop_first() =~= Seq::<XEv>::empty());
}

/// Attaching one node is what `append_node` does.
proof fn lemma_append_attach(st: BuildState, n: XNode)
    ensures
        append_node(st, n) == attach(st, seq![n], st.count),
{
    if st.stack.len() > 0 {
        let p = st.stack.last();
        assert(p.children.push(n) =~= p.children + seq![n]);
    } else {
        assert(st.roots.push(n) =~= st.roots + seq![n]);
    }
}

/// Attaching nothing changes nothing but the count.
proof fn lemma_attach_none(st: BuildState)
    ensures
        attach(st, Seq::empty(), st.count) == st,
{
    if st.stack.len() > 0 {
        let p = st.stack.last();
        assert(p.children + Seq::<XNode>::empty() =~= p.children);
        assert(XNode { children: p.children + Seq::<XNode>::empty(), ..p } == p);
        assert(st.stack.drop_last().push(p) =~= st.stack);
    } else {
        assert(st.roots + Seq::<XNode>::empty() =~= st.roots);
    }
}

/// Attaching `a` and then `b` is attaching `a + b`.
proof fn lemma_attach_twice(st: BuildState, a: Seq<XNode>, b: Seq<XNode>, c1: nat, c2: nat)
    ensures
        attach(attach(st, a, c1), b, c2) == attach(st, a + b, c2),
{
    if st.stack.len() > 0 {
        let p = st.stack.last();
        let s1 = attach(st, a, c1);
        assert(s1.stack.len() > 0);
        assert(s1.stack.drop_last() =~= st.stack.drop_last());
        assert(p.children + a + b =~= p.children + (a + b));
        assert(s1.stack.last().children + b =~= p.children + (a + b));
    } else {
        assert(st.roots + a + b =~= st.roots + (a + b));
    }
}

/// The events of a `title` or `desc` element inside an open node set that
/// node's title or description.
proof fn lemma_text_run(st: BuildState, is_title: bool, txt: Seq<char>)
    requires
        st.inside_xbel,
    ensures
        run_evs(st, text_evs(is_title, txt)) == spec_accept_text(st, is_title, Ok(txt)),
{
    lemma_tag_names();
    let e0 = XEv::Tok(TokV::Start(text_name(is_title), Seq::empty()));
    let e1 = XEv::Text(is_title, txt);
    let evs = text_evs(is_title, txt);
    assert(evs[0] == e0);
    assert(evs.drop_first() =~= seq![e1]);
    assert(ev_step(st, e0) == Ok::<BuildState, ErrorV>(st));
    lemma_run_one(st, e1);
}


/// Reading the events of a written node inside the root attaches the node
/// that reading gives to the innermost open folder or to the top level,
/// counted with its subtree.
proof fn lemma_node_run(st: BuildState, t: TreeV)
    requires
        st.inside_xbel,
        st.stack.len() + node_depth(t) <= 128,
        st.count + node_count(t) <= 100000,
        node_urls_ok(t),
    ensures
        run_evs(st, node_evs(t)) == Ok::<BuildState, ErrorV>(
            if written(t) { attach(st, seq![read_node(t)], st.count + node_count(t)) } else { st }),
    decreases t, 0nat,
{
    lemma_tag_names();
    reveal_with_fuel(spec_attribute, 3);
    let n = t.node;
    let ext = n.external_id@;
    if n.node_type@ == "folder"@ {
        let s_ev = XEv::Tok(TokV::Start(folder_name(), seq![attr_of(id_name(), ext)]));
        let e_ev = XEv::Tok(TokV::End(folder_name()));
        let tv = text_evs(true, n.title@);
        let dv = desc_evs(n.description@);
        let fv = forest_evs(t.children, t.children.len() as int);
        let l0 = leaf(NodeKind::Folder, Some(ext), None);
        let s1 = BuildState { stack: st.stack.push(l0), count: st.count + 1, ..st };
        assert(ev_step(st, s_ev) == Ok::<BuildState, ErrorV>(s1));
        lemma_run_one(st, s_ev);
        let l1 = XNode { title: n.title@, ..l0 };
        let s2 = BuildState { stack: st.stack.push(l1), ..s1 };
        lemma_text_run(s1, true, n.title@);
        assert(s1.stack.drop_last() =~= st.stack);
        assert(run_evs(s1, tv) == Ok::<BuildState, ErrorV>(s2));
        lemma_run_concat(st, seq![s_ev], tv);
        let l2 = XNode { description: n.description@, ..l1 };
        let s3 = BuildState { stack: st.stack.push(l2), ..s1 };
        if n.description@.len() == 0 {
            assert(dv =~= Seq::<XEv>::empty());
            assert(l0.description =~= n.description@);
            assert(l2 == l1);
            assert(run_evs(s2, dv) == Ok::<BuildState, ErrorV>(s2));
        } else {
            lemma_text_run(s2, false, n.description@);
            assert(s2.stack.drop_last() =~= st.stack);
        }
        assert(run_evs(s2, dv) == Ok::<BuildState, ErrorV>(s3));
        lemma_run_concat(st, seq![s_ev] + tv, dv);
        lemma_forest_run(s3, t.children, t.children.len() as int);
        let r = read_forest(t.children, t.children.len() as int);
        let c4 = s3.count + forest_count(t.children, t.children.len() as int);
        let s4 = attach(s3, r, c4);
        lemma_run_concat(st, seq![s_ev] + tv + dv, fv);
        let l3 = XNode { children: l2.children + r, ..l2 };
        assert(s3.stack.drop_last() =~= st.stack);
        assert(s4.stack =~= st.stack.push(l3));
        assert(l2.children + r =~= r);
        assert(l3 == read_node(t));
        let s4b = BuildState { stack: s4.stack.drop_last(), ..s4 };
        assert(s4.stack.drop_last() =~= st.stack);
        assert(s4b == BuildState { count: c4, ..st });
        assert(ev_step(s4, e_ev) == Ok::<BuildState, ErrorV>(append_node(s4b, l3)));
        lemma_run_one(s4, e_ev);
        lemma_run_concat(st, seq![s_ev] + tv + dv + fv, seq![e_ev]);
        lemma_append_attach(s4b, l3);
        assert(node_evs(t) == seq![s_ev] + tv + dv + fv + seq![e_ev]);
    } else if n.node_type@ == "bookmark"@ {
        let u = crate::xbel_write::opt_text(n.url);
        let attrs = seq![attr_of(href_name(), u), attr_of(id_name(), ext)];
        assert(attrs.drop_first() =~= seq![attr_of(id_name(), ext)]);
        let s_ev = XEv::Tok(TokV::Start(bookmark_name(), attrs));
        let e_ev = XEv::Tok(TokV::End(bookmark_name()));
        let tv = text_evs(true, n.title@);
        let dv = desc_evs(n.description@);
        let l0 = leaf(NodeKind::Bookmark, Some(ext), Some(u));
        let s1 = BuildState { stack: st.stack.push(l0), count: st.count + 1, ..st };
        assert(spec_attribute(attrs, id_name()) == Ok::<Option<Seq<char>>, ErrorV>(Some(ext)));
        assert(ev_step(st, s_ev) == Ok::<BuildState, ErrorV>(s1));
        lemma_run_one(st, s_ev);
        let l1 = XNode { title: n.title@, ..l0 };
        let s2 = BuildState { stack: st.stack.push(l1), ..s1 };
        lemma_text_run(s1, true, n.title@);
        assert(s1.stack.drop_last() =~= st.stack);
        assert(run_evs(s1, tv) == Ok::<BuildState, ErrorV>(s2));
        lemma_run_concat(st, seq![s_ev], tv);
        let l2 = XNode { description: n.description@, ..l1 };
        let s3 = BuildState { stack: st.stack.push(l2), ..s1 };
        if n.description@.len() == 0 {
            assert(dv =~= Seq::<XEv>::empty());
            assert(l0.description =~= n.description@);
            assert(l2 == l1);
            assert(run_evs(s2, dv) == Ok::<BuildState, ErrorV>(s2));
        } else {
            lemma_text_run(s2, false, n.description@);
            assert(s2.stack.drop_last() =~= st.stack);
        }
        assert(run_evs(s2, dv) == Ok::<BuildState, ErrorV>(s3));
        lemma_run_concat(st, seq![s_ev] + tv, dv);
        assert(l2 == read_node(t));
        let s3b = BuildState { stack: s3.stack.drop_last(), ..s3 };
        assert(s3.stack.drop_last() =~= st.stack);
        assert(s3b == BuildState { count: st.count + 1, ..st });
        assert(ev_step(s3, e_ev) == Ok::<BuildState, ErrorV>(append_node(s3b, l2)));
        lemma_run_one(s3, e_ev);
        lemma_run_concat(st, seq![s_ev] + tv + dv, seq![e_ev]);
        lemma_append_attach(s3b, l2);
        assert(node_evs(t) == seq![s_ev] + tv + dv + seq![e_ev]);
    } else if n.node_type@ == "separator"@ {
        let s_ev = XEv::Tok(TokV::Empty(separator_name(), seq![attr_of(id_name(), ext)]));
        let l0 = leaf(NodeKind::Separator, Some(ext), None);
        assert(l0 == read_node(t));
        assert(ev_step(st, s_ev) == Ok::<BuildState, ErrorV>(append_node(BuildState { count: st.count + 1, ..st }, l0)));
        lemma_run_one(st, s_ev);
        lemma_append_attach(BuildState { count: st.count + 1, ..st }, l0);
    } else {
        assert(node_evs(t) =~= Seq::<XEv>::empty());
    }
}

/// Reading the events of the first `i` nodes of `ts` inside the root
/// attaches the nodes that reading gives, in order.
proof fn lemma_forest_run(st: BuildState, ts: Seq<TreeV>, i: int)
    requires
        st.inside_xbel,
        0 <= i <= ts.len(),
        st.stack.len() + forest_depth(ts, i) <= 128,
        st.count + forest_count(ts, i) <= 100000,
        forest_urls_ok(ts, i),
    ensures
        run_evs(st, forest_evs(ts, i)) == Ok::<BuildState, ErrorV>(attach(st, read_forest(ts, i), st.count + forest_count(ts, i))),
    decreases ts, i,
{
    if i == 0 {
        lemma_attach_none(st);
        assert(forest_evs(ts, 0) =~= Seq::<XEv>::empty());
    } else {
        lemma_forest_run(st, ts, i - 1);
        let c1 = st.count + forest_count(ts, i - 1);
        let s1 = attach(st, read_forest(ts, i - 1), c1);
        let t = ts[i - 1];
        lemma_node_run(s1, t);
        lemma_run_concat(st, forest_evs(ts, i - 1), node_evs(t));
        if written(t) {
            lemma_attach_twice(st, read_forest(ts, i - 1), seq![read_node(t)], c1, c1 + node_count(t));
            assert(read_forest(ts, i - 1) + seq![read_node(t)] =~= read_forest(ts, i));
        } else {
            assert(node_count(t) == 0);
        }
    }
}

/// The end of a document: the comment, the root's end tag and the end of
/// input close the root.
proof fn lemma_tail_run(st: BuildState)
    requires
        st.inside_xbel,
        st.stack.len() == 0,
    ensures
        run_evs(st, seq![XEv::Tok(TokV::Other), XEv::Tok(TokV::End(xbel_name())), XEv::Tok(TokV::Eof)])
            == Ok::<BuildState, ErrorV>(BuildState { inside_xbel: false, finished_xbel: true, ..st }),
{
    lemma_tag_names();
    let a = XEv::Tok(TokV::Other);
    let b = XEv::Tok(TokV::End(xbel_name()));
    let c = XEv::Tok(TokV::Eof);
    let s4 = BuildState { inside_xbel: false, finished_xbel: true, ..st };
    lemma_run_one(st, a);
    lemma_run_one(st, b);
    lemma_run_one(s4, c);
    lemma_run_concat(st, seq![a], seq![b]);
    lemma_run_concat(st, seq![a] + seq![b], seq![c]);
    assert(seq![a] + seq![b] + seq![c] =~= seq![a, b, c]);
}

/// A written document reads back as itself: the events that the XBEL which
/// `document_xml` writes for `title` and `roots` consists of, run through
/// the reading state machine from the start, give that title and the nodes
/// of `roots` (those of the written types), each with its kind, external id,
/// title, URL, description and children, in sibling order; for a tree
/// within the reading limits and with a usable URL on every bookmark.
pub proof fn lemma_written_document_reads_back(title: Seq<char>, roots: Seq<TreeV>)
    requires
        forest_depth(roots, roots.len() as int) <= 128,
        forest_count(roots, roots.len() as int) <= 100000,
        forest_urls_ok(roots, roots.len() as int),
    ensures
        read_events(document_evs(title, roots)) == Ok::<XDoc, ErrorV>(
            XDoc { title, nodes: read_forest(roots, roots.len() as int) }),
{
    lemma_tag_names();
    let st0 = initial_state();
    let e0 = XEv::Tok(TokV::Other);
    let e1 = XEv::Tok(TokV::Start(xbel_name(), seq![attr_of(seq![118u8, 101u8, 114u8, 115u8, 105u8, 111u8, 110u8], "1.0"@)]));
    let tv = if title.len() == 0 { Seq::<XEv>::empty() } else { text_evs(true, title) };
    let fv = forest_evs(roots, roots.len() as int);
    let tail = seq![XEv::Tok(TokV::Other), XEv::Tok(TokV::End(xbel_name())), XEv::Tok(TokV::Eof)];
    let s1 = BuildState { saw_xbel: true, inside_xbel: true, ..st0 };
    lemma_run_one(st0, e0);
    lemma_run_one(st0, e1);
    lemma_run_concat(st0, seq![e0], seq![e1]);
    assert(run_evs(st0, seq![e0, e1]) == Ok::<BuildState, ErrorV>(s1)) by {
        assert(seq![e0] + seq![e1] =~= seq![e0, e1]);
    }
    let s2 = BuildState { title, ..s1 };
    if title.len() == 0 {
        assert(title =~= Seq::<char>::empty());
        assert(s2 == s1);
        assert(run_evs(s1, tv) == Ok::<BuildState, ErrorV>(s1));
    } else {
        lemma_text_run(s1, true, title);
    }
    assert(run_evs(s1, tv) == Ok::<BuildState, ErrorV>(s2));
    lemma_run_concat(st0, seq![e0, e1], tv);
    lemma_forest_run(s2, roots, roots.len() as int);
    let r = read_forest(roots, roots.len() as int);
    let s3 = attach(s2, r, forest_count(roots, roots.len() as int));
    assert(s3.roots =~= r);
    lemma_run_concat(st0, seq![e0, e1] + tv, fv);
    lemma_tail_run(s3);
    lemma_run_concat(st0, seq![e0, e1] + tv + fv, tail);
    assert(document_evs(title, roots) =~= seq![e0, e1] + tv + fv + tail);
}


/// Whether `x` and the nodes below it have URLs only where they are
/// bookmarks, each of 1 to 8000 bytes.
pub open spec fn node_urls(x: XNode) -> bool
    decreases x, 0nat,
{
    &&& if x.kind == NodeKind::Bookmark {
        x.url matches Some(u) && 0 < utf8_len(u) <= 8000
    } else {
        x.url is None
    }
    &&& nodes_urls(x.children, x.children.len() as int)
}

pub open spec fn nodes_urls(xs: Seq<XNode>, i: int) -> bool
    decreases xs, i,
{
    if i <= 0 || i > xs.len() { true } else { nodes_urls(xs, i - 1) && node_urls(xs[i - 1]) }
}

pub open spec fn state_urls(st: BuildState) -> bool {
    &&& nodes_urls(st.roots, st.roots.len() as int)
    &&& forall|j: int| 0 <= j < st.stack.len() ==> node_urls(#[trigger] st.stack[j])
}

proof fn lemma_nodes_urls_prefix(xs: Seq<XNode>, n: XNode, i: int)
    requires
        0 <= i <= xs.len(),
    ensures
        nodes_urls(xs.push(n), i) == nodes_urls(xs, i),
    decreases i,
{
    if i > 0 {
        lemma_nodes_urls_prefix(xs, n, i - 1);
        assert(xs.push(n)[i - 1] == xs[i - 1]);
    }
}

proof fn lemma_nodes_urls_push(xs: Seq<XNode>, n: XNode)
    ensures
        nodes_urls(xs.push(n), xs.len() + 1 as int) == (nodes_urls(xs, xs.len() as int) && node_urls(n)),
{
    lemma_nodes_urls_prefix(xs, n, xs.len() as int);
    assert(xs.push(n)[xs.len() as int] == n);
}

proof fn lemma_append_urls(st: BuildState, n: XNode)
    requires
        state_urls(st),
        node_urls(n),
    ensures
        state_urls(append_node(st, n)),
{
    if st.stack.len() > 0 {
        let p = st.stack.last();
        let p2 = XNode { children: p.children.push(n), ..p };
        lemma_nodes_urls_push(p.children, n);
        assert(node_urls(p));
        assert(node_urls(p2));
        let s2 = append_node(st, n);
        assert forall|j: int| 0 <= j < s2.stack.len() implies node_urls(#[trigger] s2.stack[j]) by {
            if j < st.stack.len() - 1 {
                assert(s2.stack[j] == st.stack[j]);
            }
        }
    } else {
        lemma_nodes_urls_push(st.roots, n);
    }
}

proof fn lemma_step_urls(st: BuildState, t: TokV)
    requires
        state_urls(st),
        spec_step(st, t) is Ok,
    ensures
        state_urls(spec_step(st, t)->Ok_0.0),
{
    reveal_with_fuel(nodes_urls, 1);
    let s1 = spec_step(st, t)->Ok_0.0;
    match t {
        TokV::Start(n, attrs) | TokV::Empty(n, attrs) => {
            let kind = kind_of_tag(tag_of(n));
            if tag_of(n) == Tag::Folder || tag_of(n) == Tag::Bookmark || tag_of(n) == Tag::Separator {
                if let Ok(x) = spec_element(attrs, kind) {
                    assert(node_urls(x));
                    let c = BuildState { count: st.count + 1, ..st };
                    if s1 != st {
                        if t is Start && tag_of(n) != Tag::Separator {
                            assert forall|j: int| 0 <= j < s1.stack.len() implies node_urls(#[trigger] s1.stack[j]) by {
                                if j < st.stack.len() {
                                    assert(s1.stack[j] == st.stack[j]);
                                }
                            }
                        } else {
                            lemma_append_urls(c, x);
                        }
                    }
                }
            }
        },
        TokV::End(n) => {
            if (tag_of(n) == Tag::Folder || tag_of(n) == Tag::Bookmark) && st.stack.len() > 0 {
                let popped = BuildState { stack: st.stack.drop_last(), ..st };
                assert(node_urls(st.stack.last()));
                assert forall|j: int| 0 <= j < popped.stack.len() implies node_urls(#[trigger] popped.stack[j]) by {
                    assert(popped.stack[j] == st.stack[j]);
                }
                lemma_append_urls(popped, st.stack.last());
            }
        },
        _ => {},
    }
}

proof fn lemma_text_urls(st: BuildState, is_title: bool, txt: Result<Seq<char>, Seq<char>>)
    requires
        state_urls(st),
        spec_accept_text(st, is_title, txt) is Ok,
    ensures
        state_urls(spec_accept_text(st, is_title, txt)->Ok_0),
{
    let s2 = spec_accept_text(st, is_title, txt)->Ok_0;
    if st.stack.len() > 0 {
        assert(node_urls(st.stack.last()));
        assert forall|j: int| 0 <= j < s2.stack.len() implies node_urls(#[trigger] s2.stack[j]) by {
            if j < st.stack.len() - 1 {
                assert(s2.stack[j] == st.stack[j]);
            }
        }
    }
}

proof fn lemma_run_urls(source: Seq<u8>, calls: XmlCalls, st: BuildState, fuel: nat)
    requires
        state_urls(st),
        xbel_run(source, calls, st, fuel) is Ok,
    ensures
        ({
            let d = xbel_run(source, calls, st, fuel)->Ok_0;
            nodes_urls(d.nodes, d.nodes.len() as int)
        }),
    decreases fuel,
{
    let t = cooked(xml_event(source, calls));
    lemma_step_urls(st, t);
    let (s1, f) = spec_step(st, t)->Ok_0;
    let calls1 = calls.push(None);
    if f == Flow::Done {
    } else if f == Flow::Continue {
        lemma_run_urls(source, calls1, s1, (fuel - 1) as nat);
    } else {
        let is_title = f == Flow::ReadTitle;
        let name = text_name(is_title);
        let txt = match xml_text(source, calls1, name) {
            Ok(raw) => xml_unescaped(raw),
            Err(m) => Err(m),
        };
        lemma_text_urls(s1, is_title, txt);
        let s2 = spec_accept_text(s1, is_title, txt)->Ok_0;
        lemma_run_urls(source, calls1.push(Some(name)), s2, (fuel - 1) as nat);
    }
}

/// In a parsed document, URLs stand only on bookmarks, and every bookmark
/// has one of 1 to 8000 bytes, at every depth.
pub proof fn lemma_parsed_urls(input: Seq<char>)
    requires
        spec_parse_xbel(input) is Ok,
    ensures
        ({
            let d = spec_parse_xbel(input)->Ok_0;
            nodes_urls(d.nodes, d.nodes.len() as int)
        }),
{
    let src = vstd::utf8::encode_utf8(input);
    assert(initial_state().roots =~= Seq::<XNode>::empty());
    lemma_run_urls(src, Seq::empty(), initial_state(), src.len() + 1);
}

} // verus!
