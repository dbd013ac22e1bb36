//! XML documents as a flat list of nodes.
//!
//! The nodes stand in document order, and each names its parent by position, so that a walk
//! over a document is a walk over positions.

use vstd::prelude::*;

use crate::lists;
use crate::text;

verus! {

/// An attribute of an element.
pub struct XmlAttr {
    /// The namespace that the attribute's prefix stands for; no prefix, no namespace.
    pub namespace: Option<String>,
    /// The name without its prefix.
    pub name: String,
    pub value: String,
}

/// A node of a document.
pub struct XmlNode {
    /// The tag's name without its prefix; empty for a node that is not an element.
    pub name: String,
    /// The position of the parent.
    pub parent: Option<usize>,
    pub attributes: Vec<XmlAttr>,
    /// The text of a text node or comment, and the text that an element starts with.
    pub text: Option<String>,
}

/// An attribute as mathematical text.
pub struct XmlAttrView {
    pub namespace: Option<Seq<char>>,
    pub name: Seq<char>,
    pub value: Seq<char>,
}

/// A node as mathematical text.
pub struct XmlNodeView {
    pub name: Seq<char>,
    pub parent: Option<int>,
    pub attributes: Seq<XmlAttrView>,
    pub text: Option<Seq<char>>,
}

impl View for XmlAttr {
    type V = XmlAttrView;

    open spec fn view(&self) -> XmlAttrView {
        XmlAttrView {
            namespace: text::text_of(self.namespace),
            name: self.name@,
            value: self.value@,
        }
    }
}

impl View for XmlNode {
    type V = XmlNodeView;

    open spec fn view(&self) -> XmlNodeView {
        XmlNodeView {
            name: self.name@,
            parent: match self.parent {
                Some(p) => Some(p as int),
                None => None,
            },
            attributes: self.attributes@.map_values(|a: XmlAttr| a@),
            text: text::text_of(self.text),
        }
    }
}

/// The document behind a list of nodes.
pub open spec fn document(nodes: Seq<XmlNode>) -> Seq<XmlNodeView> {
    nodes.map_values(|n: XmlNode| n@)
}

// ---------------------------------------------------------------------------------------
// How deep a text nests elements
// ---------------------------------------------------------------------------------------

/// What the end of an XML text lies in, by what stands before it.
#[derive(Clone, Copy, PartialEq, Eq, Structural, Debug)]
pub enum Place {
    /// Between tags.
    Content,
    /// Behind `<`.
    Start,
    /// Behind `<!`.
    Mark,
    /// Behind `<!-`.
    MarkDash,
    /// In the tag that opens an element.
    Tag,
    /// In such a tag, behind `/`.
    TagSlash,
    /// In a value in double quotes.
    DoubleQuoted,
    /// In a value in single quotes.
    SingleQuoted,
    /// In the tag that closes an element.
    Closing,
    /// In a comment.
    Comment,
    /// In a comment, behind `-`.
    CommentDash,
    /// In a comment, behind `--`.
    CommentDashes,
    /// In a CDATA section.
    Cdata,
    /// In a CDATA section, behind `]`.
    CdataBracket,
    /// In a CDATA section, behind `]]`.
    CdataBrackets,
    /// In a processing instruction.
    Instruction,
    /// In a processing instruction, behind `?`.
    InstructionEnd,
}

/// What the end of a text lies in when one more character is read.
pub open spec fn next_place(place: Place, c: char) -> Place {
    match place {
        Place::Content => if c == '<' {
            Place::Start
        } else {
            Place::Content
        },
        Place::Start => if c == '!' {
            Place::Mark
        } else if c == '?' {
            Place::Instruction
        } else if c == '/' {
            Place::Closing
        } else {
            Place::Tag
        },
        Place::Mark => if c == '-' {
            Place::MarkDash
        } else if c == '[' {
            Place::Cdata
        } else {
            Place::Content
        },
        Place::MarkDash => if c == '-' {
            Place::Comment
        } else {
            Place::Content
        },
        Place::Tag => if c == '>' {
            Place::Content
        } else if c == '/' {
            Place::TagSlash
        } else if c == '"' {
            Place::DoubleQuoted
        } else if c == '\'' {
            Place::SingleQuoted
        } else {
            Place::Tag
        },
        Place::TagSlash => if c == '>' {
            Place::Content
        } else {
            Place::Tag
        },
        Place::DoubleQuoted => if c == '"' {
            Place::Tag
        } else {
            Place::DoubleQuoted
        },
        Place::SingleQuoted => if c == '\'' {
            Place::Tag
        } else {
            Place::SingleQuoted
        },
        Place::Closing => if c == '>' {
            Place::Content
        } else {
            Place::Closing
        },
        Place::Comment => if c == '-' {
            Place::CommentDash
        } else {
            Place::Comment
        },
        Place::CommentDash => if c == '-' {
            Place::CommentDashes
        } else {
            Place::Comment
        },
        Place::CommentDashes => if c == '>' {
            Place::Content
        } else if c == '-' {
            Place::CommentDashes
        } else {
            Place::Comment
        },
        Place::Cdata => if c == ']' {
            Place::CdataBracket
        } else {
            Place::Cdata
        },
        Place::CdataBracket => if c == ']' {
            Place::CdataBrackets
        } else {
            Place::Cdata
        },
        Place::CdataBrackets => if c == '>' {
            Place::Content
        } else if c == ']' {
            Place::CdataBrackets
        } else {
            Place::Cdata
        },
        Place::Instruction => if c == '?' {
            Place::InstructionEnd
        } else {
            Place::Instruction
        },
        Place::InstructionEnd => if c == '>' {
            Place::Content
        } else if c == '?' {
            Place::InstructionEnd
        } else {
            Place::Instruction
        },
    }
}

/// What the end of a text lies in.
pub open spec fn place_after(s: Seq<char>) -> Place
    decreases s.len(),
{
    if s.len() == 0 {
        Place::Content
    } else {
        next_place(place_after(s.drop_last()), s.last())
    }
}

/// How many elements are open at the end of a text. A tag opens one, and a closing tag or the
/// slash of an empty element closes one.
pub open spec fn open_elements(s: Seq<char>) -> nat
    decreases s.len(),
{
    if s.len() == 0 {
        0
    } else {
        let before = open_elements(s.drop_last());
        let from = place_after(s.drop_last());
        let to = place_after(s);
        if from is Start && to is Tag {
            before + 1
        } else if to is Closing && from is Start || from is TagSlash && to is Content {
            if before > 0 {
                (before - 1) as nat
            } else {
                0
            }
        } else {
            before
        }
    }
}

/// The most elements that are open at once in a text. What looks like tags in comments, CDATA
/// sections, processing instructions and quoted values opens none.
pub open spec fn nesting(text: Seq<char>) -> nat
    decreases text.len(),
{
    if text.len() == 0 {
        0
    } else {
        let before = nesting(text.drop_last());
        if open_elements(text) > before {
            open_elements(text)
        } else {
            before
        }
    }
}

fn find_next_place(place: Place, c: char) -> (r: Place)
    ensures
        r == next_place(place, c),
{
    match place {
        Place::Content => if c == '<' {
            Place::Start
        } else {
            Place::Content
        },
        Place::Start => if c == '!' {
            Place::Mark
        } else if c == '?' {
            Place::Instruction
        } else if c == '/' {
            Place::Closing
        } else {
            Place::Tag
        },
        Place::Mark => if c == '-' {
            Place::MarkDash
        } else if c == '[' {
            Place::Cdata
        } else {
            Place::Content
        },
        Place::MarkDash => if c == '-' {
            Place::Comment
        } else {
            Place::Content
        },
        Place::Tag => if c == '>' {
            Place::Content
        } else if c == '/' {
            Place::TagSlash
        } else if c == '"' {
            Place::DoubleQuoted
        } else if c == '\'' {
            Place::SingleQuoted
        } else {
            Place::Tag
        },
        Place::TagSlash => if c == '>' {
            Place::Content
        } else {
            Place::Tag
        },
        Place::DoubleQuoted => if c == '"' {
            Place::Tag
        } else {
            place
        },
        Place::SingleQuoted => if c == '\'' {
            Place::Tag
        } else {
            place
        },
        Place::Closing => if c == '>' {
            Place::Content
        } else {
            place
        },
        Place::Comment => if c == '-' {
            Place::CommentDash
        } else {
            place
        },
        Place::CommentDash => if c == '-' {
            Place::CommentDashes
        } else {
            Place::Comment
        },
        Place::CommentDashes => if c == '>' {
            Place::Content
        } else if c == '-' {
            place
        } else {
            Place::Comment
        },
        Place::Cdata => if c == ']' {
            Place::CdataBracket
        } else {
            place
        },
        Place::CdataBracket => if c == ']' {
            Place::CdataBrackets
        } else {
            Place::Cdata
        },
        Place::CdataBrackets => if c == '>' {
            Place::Content
        } else if c == ']' {
            place
        } else {
            Place::Cdata
        },
        Place::Instruction => if c == '?' {
            Place::InstructionEnd
        } else {
            place
        },
        Place::InstructionEnd => if c == '>' {
            Place::Content
        } else if c == '?' {
            place
        } else {
            Place::Instruction
        },
    }
}

/// Tells whether a text nests no more than `limit` elements.
pub fn nests_at_most(text: &str, limit: usize) -> (r: bool)
    requires
        limit < usize::MAX,
    ensures
        r == (nesting(text@) <= limit),
{
    let mut place: Place = Place::Content;
    let mut open: usize = 0;
    let mut fits: bool = true;
    assert(text@.take(0) == Seq::<char>::empty());
    for c in it: text.chars()
        invariant
            it.seq() == text@,
            limit < usize::MAX,
            fits == (nesting(text@.take(it.index())) <= limit),
            fits ==> place == place_after(text@.take(it.index())),
            fits ==> open == open_elements(text@.take(it.index())),
            fits ==> open <= limit,
    {
        let ghost n = it.index();
        proof {
            assert(text@.take(n + 1).drop_last() == text@.take(n));
            assert(text@.take(n + 1).last() == c);
        }
        if fits {
            let next: Place = find_next_place(place, c);
            if place == Place::Start && next == Place::Tag {
                open = open + 1;
            } else if (place == Place::Start && next == Place::Closing) || (place
                == Place::TagSlash && next == Place::Content) {
                if open > 0 {
                    open = open - 1;
                }
            }
            place = next;
            if open > limit {
                fits = false;
            }
        }
    }
    assert(text@.take(text@.len() as int) == text@);
    fits
}

// ---------------------------------------------------------------------------------------
// Reading a document
// ---------------------------------------------------------------------------------------

/// How deep the elements of a document may nest. Each level costs the parser some kilobytes of
/// stack where it is not optimised, and this many levels fit into the two megabytes of a thread.
pub const MAX_NESTING: usize = 256;

/// The nodes that `roxmltree::Document::parse` finds in a text, in document order; none where
/// it rejects the text.
pub uninterp spec fn xml_nodes(text: Seq<char>) -> Option<Seq<XmlNodeView>>;

/// `roxmltree::Document::parse` reads the text as an XML document or rejects it, and depends on
/// nothing but the text. It calls itself for each element inside another, and would run out of
/// stack on a text that nests them without bound: so none is handed to it. `Document::descendants` gives the nodes in document
/// order, the position of each being its `NodeId`; of each node this keeps `tag_name().name()`,
/// the `NodeId` of `parent()`, `attributes()` and `text()`.
#[verifier::external_body]
fn parse_xml(text: &str) -> (r: Option<Vec<XmlNode>>)
    requires
        nesting(text@) <= MAX_NESTING,
    ensures
        match r {
            Some(nodes) => xml_nodes(text@) == Some(document(nodes@)),
            None => xml_nodes(text@) is None,
        },
{
    let doc = roxmltree::Document::parse(text).ok()?;
    let attr = |a: roxmltree::Attribute| XmlAttr {
        namespace: a.namespace().map(str::to_string),
        name: a.name().to_string(),
        value: a.value().to_string(),
    };
    let node = |n: roxmltree::Node| XmlNode {
        name: n.tag_name().name().to_string(),
        parent: n.parent().map(|p| p.id().get_usize()),
        attributes: n.attributes().map(attr).collect(),
        text: n.text().map(str::to_string),
    };
    Some(doc.descendants().map(node).collect())
}

/// The nodes of the document that a text is; a text that nests elements too deep is none.
pub open spec fn tree(text: Seq<char>) -> Option<Seq<XmlNodeView>> {
    if nesting(text) <= MAX_NESTING {
        xml_nodes(text)
    } else {
        None
    }
}

/// Reads the document that a text is.
pub fn read_xml(text: &str) -> (r: Option<Vec<XmlNode>>)
    ensures
        match r {
            Some(nodes) => tree(text@) == Some(document(nodes@)),
            None => tree(text@) is None,
        },
{
    if nests_at_most(text, MAX_NESTING) {
        parse_xml(text)
    } else {
        None
    }
}

/// The value of the first attribute that satisfies `p`.
pub open spec fn first_value(attrs: Seq<XmlAttrView>, p: spec_fn(XmlAttrView) -> bool) -> Option<
    Seq<char>,
>
    decreases attrs.len(),
{
    if attrs.len() == 0 {
        None
    } else if p(attrs[0]) {
        Some(attrs[0].value)
    } else {
        first_value(attrs.skip(1), p)
    }
}

/// The value of the attribute of that name that is in no namespace.
pub open spec fn attribute(n: XmlNodeView, name: Seq<char>) -> Option<Seq<char>> {
    first_value(n.attributes, |a: XmlAttrView| a.namespace is None && a.name == name)
}

/// The value of the first attribute of that name, whatever its namespace.
pub open spec fn local_attribute(n: XmlNodeView, name: Seq<char>) -> Option<Seq<char>> {
    first_value(n.attributes, |a: XmlAttrView| a.name == name)
}

/// Finds the attribute of that name that is in no namespace.
pub fn find_attribute<'a>(n: &'a XmlNode, name: &str) -> (r: Option<&'a String>)
    ensures
        match r {
            Some(v) => attribute(n@, name@) == Some(v@),
            None => attribute(n@, name@) is None,
        },
{
    let ghost p = |a: XmlAttrView| a.namespace is None && a.name == name@;
    let mut i: usize = 0;
    assert(n@.attributes.skip(0) == n@.attributes);
    while i < n.attributes.len()
        invariant
            i <= n.attributes@.len(),
            p == (|a: XmlAttrView| a.namespace is None && a.name == name@),
            first_value(n@.attributes, p) == first_value(n@.attributes.skip(i as int), p),
        decreases n.attributes@.len() - i,
    {
        let a: &'a XmlAttr = &n.attributes[i];
        assert(n@.attributes.skip(i as int)[0] == a@);
        assert(n@.attributes.skip(i as int).skip(1) == n@.attributes.skip(i + 1));
        if a.namespace.is_none() && text::same(a.name.as_str(), name) {
            return Some(&a.value);
        }
        i = i + 1;
    }
    None
}

/// Finds the first attribute of that name, whatever its namespace.
pub fn find_local_attribute<'a>(n: &'a XmlNode, name: &str) -> (r: Option<&'a String>)
    ensures
        match r {
            Some(v) => local_attribute(n@, name@) == Some(v@),
            None => local_attribute(n@, name@) is None,
        },
{
    let ghost p = |a: XmlAttrView| a.name == name@;
    let mut i: usize = 0;
    assert(n@.attributes.skip(0) == n@.attributes);
    while i < n.attributes.len()
        invariant
            i <= n.attributes@.len(),
            p == (|a: XmlAttrView| a.name == name@),
            first_value(n@.attributes, p) == first_value(n@.attributes.skip(i as int), p),
        decreases n.attributes@.len() - i,
    {
        let a: &'a XmlAttr = &n.attributes[i];
        assert(n@.attributes.skip(i as int)[0] == a@);
        assert(n@.attributes.skip(i as int).skip(1) == n@.attributes.skip(i + 1));
        if text::same(a.name.as_str(), name) {
            return Some(&a.value);
        }
        i = i + 1;
    }
    None
}

/// The positions of the elements with that tag name.
pub open spec fn elements(doc: Seq<XmlNodeView>, name: Seq<char>) -> Seq<int> {
    lists::positions(doc.len() as int, |i: int| doc[i].name == name)
}

/// The positions of the children of node `parent` with that tag name.
pub open spec fn children(doc: Seq<XmlNodeView>, parent: int, name: Seq<char>) -> Seq<int> {
    lists::positions(doc.len() as int, |i: int| doc[i].parent == Some(parent) && doc[i].name == name)
}

/// Finds the elements with that tag name.
pub fn find_elements(nodes: &[XmlNode], name: &str) -> (r: Vec<usize>)
    ensures
        lists::ints(r@) == elements(document(nodes@), name@),
        forall|k: int| 0 <= k < r@.len() ==> #[trigger] r@[k] < nodes@.len(),
{
    let ghost doc = document(nodes@);
    let ghost p = |i: int| doc[i].name == name@;
    let mut out: Vec<usize> = Vec::new();
    let mut i: usize = 0;
    while i < nodes.len()
        invariant
            i <= nodes@.len(),
            doc == document(nodes@),
            p == (|i: int| doc[i].name == name@),
            lists::ints(out@) == lists::positions(i as int, p),
            forall|k: int| 0 <= k < out@.len() ==> #[trigger] out@[k] < nodes@.len(),
        decreases nodes@.len() - i,
    {
        let ghost before = out@;
        assert(doc[i as int] == nodes@[i as int]@);
        if text::same(nodes[i].name.as_str(), name) {
            out.push(i);
            assert(lists::ints(out@) == lists::ints(before).push(i as int));
        }
        i = i + 1;
    }
    out
}

/// Finds the children of node `parent` with that tag name.
pub fn find_children(nodes: &[XmlNode], parent: usize, name: &str) -> (r: Vec<usize>)
    ensures
        lists::ints(r@) == children(document(nodes@), parent as int, name@),
        forall|k: int| 0 <= k < r@.len() ==> #[trigger] r@[k] < nodes@.len(),
{
    let ghost doc = document(nodes@);
    let ghost p = |i: int| doc[i].parent == Some(parent as int) && doc[i].name == name@;
    let mut out: Vec<usize> = Vec::new();
    let mut i: usize = 0;
    while i < nodes.len()
        invariant
            i <= nodes@.len(),
            doc == document(nodes@),
            p == (|i: int| doc[i].parent == Some(parent as int) && doc[i].name == name@),
            lists::ints(out@) == lists::positions(i as int, p),
            forall|k: int| 0 <= k < out@.len() ==> #[trigger] out@[k] < nodes@.len(),
        decreases nodes@.len() - i,
    {
        let ghost before = out@;
        assert(doc[i as int] == nodes@[i as int]@);
        let child: bool = match nodes[i].parent {
            Some(q) => q == parent,
            None => false,
        };
        if child && text::same(nodes[i].name.as_str(), name) {
            out.push(i);
            assert(lists::ints(out@) == lists::ints(before).push(i as int));
        }
        i = i + 1;
    }
    out
}

/// Finds the first child of node `parent` with that tag name.
pub fn find_first_child(nodes: &[XmlNode], parent: usize, name: &str) -> (r: Option<usize>)
    ensures
        match r {
            Some(i) => lists::first(children(document(nodes@), parent as int, name@)) == Some(i as int)
                && i < nodes@.len(),
            None => lists::first(children(document(nodes@), parent as int, name@)) is None,
        },
{
    let all = find_children(nodes, parent, name);
    if all.len() > 0 {
        assert(lists::ints(all@)[0] == all@[0] as int);
        Some(all[0])
    } else {
        None
    }
}

// ---------------------------------------------------------------------------------------
// What is found in a document
// ---------------------------------------------------------------------------------------

proof fn lemma_first_value(attrs: Seq<XmlAttrView>, p: spec_fn(XmlAttrView) -> bool, i: int)
    requires
        0 <= i <= attrs.len(),
        forall|k: int| 0 <= k < i ==> !p(#[trigger] attrs[k]),
        i < attrs.len() ==> p(attrs[i]),
    ensures
        i < attrs.len() ==> first_value(attrs, p) == Some(attrs[i].value),
        i == attrs.len() ==> first_value(attrs, p) is None,
    decreases attrs.len(),
{
    if attrs.len() > 0 && i > 0 {
        assert(!p(attrs[0]));
        assert forall|k: int| 0 <= k < i - 1 implies !p(#[trigger] attrs.skip(1)[k]) by {
            assert(attrs.skip(1)[k] == attrs[k + 1]);
        }
        lemma_first_value(attrs.skip(1), p, i - 1);
    }
}

/// An attribute without a namespace has the value of the first one of that name that is in none;
/// one in a namespace is passed over.
pub proof fn the_first_plain_attribute_counts(n: XmlNodeView, name: Seq<char>, i: int)
    requires
        0 <= i <= n.attributes.len(),
        i < n.attributes.len() ==> n.attributes[i].name == name && n.attributes[i].namespace is None,
        forall|k: int|
            0 <= k < i ==> (#[trigger] n.attributes[k]).name != name || n.attributes[k].namespace
                is Some,
    ensures
        i < n.attributes.len() ==> attribute(n, name) == Some(n.attributes[i].value),
        i == n.attributes.len() ==> attribute(n, name) is None,
{
    lemma_first_value(
        n.attributes,
        |a: XmlAttrView| a.namespace is None && a.name == name,
        i,
    );
}

/// An attribute of any namespace has the value of the first one of that name.
pub proof fn the_first_local_attribute_counts(n: XmlNodeView, name: Seq<char>, i: int)
    requires
        0 <= i <= n.attributes.len(),
        i < n.attributes.len() ==> n.attributes[i].name == name,
        forall|k: int| 0 <= k < i ==> (#[trigger] n.attributes[k]).name != name,
    ensures
        i < n.attributes.len() ==> local_attribute(n, name) == Some(n.attributes[i].value),
        i == n.attributes.len() ==> local_attribute(n, name) is None,
{
    lemma_first_value(n.attributes, |a: XmlAttrView| a.name == name, i);
}

/// The elements of a name are all nodes of that name, in document order, wherever they stand.
pub proof fn elements_are_all_of_their_name(doc: Seq<XmlNodeView>, name: Seq<char>, i: int)
    requires
        0 <= i < doc.len(),
    ensures
        elements(doc, name).contains(i) <==> doc[i].name == name,
        forall|j: int, k: int|
            0 <= j < k < elements(doc, name).len() ==> #[trigger] elements(doc, name)[j]
                < #[trigger] elements(doc, name)[k],
{
    lists::positions_are_all(doc.len() as int, |i: int| doc[i].name == name);
}

/// The children of a name are all nodes of that name with that parent, in document order.
pub proof fn children_are_all_of_their_parent(
    doc: Seq<XmlNodeView>,
    parent: int,
    name: Seq<char>,
    i: int,
)
    requires
        0 <= i < doc.len(),
    ensures
        children(doc, parent, name).contains(i) <==> doc[i].name == name && doc[i].parent == Some(
            parent,
        ),
        forall|j: int, k: int|
            0 <= j < k < children(doc, parent, name).len() ==> #[trigger] children(
                doc,
                parent,
                name,
            )[j] < #[trigger] children(doc, parent, name)[k],
{
    lists::positions_are_all(
        doc.len() as int,
        |i: int| doc[i].parent == Some(parent) && doc[i].name == name,
    );
}

// ---------------------------------------------------------------------------------------
// What opens and closes elements
// ---------------------------------------------------------------------------------------

proof fn lemma_step(s: Seq<char>, c: char)
    ensures
        s.push(c).drop_last() == s,
        place_after(s.push(c)) == next_place(place_after(s), c),
        ({
            let from = place_after(s);
            let to = next_place(place_after(s), c);
            let opens = from is Start && to is Tag;
            let closes = from is Start && to is Closing || from is TagSlash && to is Content;
            &&& opens ==> open_elements(s.push(c)) == open_elements(s) + 1
            &&& closes && open_elements(s) > 0 ==> open_elements(s.push(c)) == open_elements(s) - 1
            &&& !opens && !closes ==> open_elements(s.push(c)) == open_elements(s)
        }),
{
    assert(s.push(c).drop_last() =~= s);
}

/// Text that does not lead out of a place opens and closes nothing.
proof fn lemma_stay(s: Seq<char>, w: Seq<char>)
    requires
        !(place_after(s) is Start),
        !(place_after(s) is TagSlash),
        forall|i: int|
            0 <= i < w.len() ==> next_place(place_after(s), #[trigger] w[i]) == place_after(s),
    ensures
        place_after(s + w) == place_after(s),
        open_elements(s + w) == open_elements(s),
    decreases w.len(),
{
    if w.len() == 0 {
        assert(s + w =~= s);
    } else {
        lemma_stay(s, w.drop_last());
        lemma_step(s + w.drop_last(), w.last());
        assert((s + w.drop_last()).push(w.last()) =~= s + w);
        assert(next_place(place_after(s), w[w.len() - 1]) == place_after(s));
    }
}

/// Whether a text can stand between the brackets of a tag: it starts with none of the marks that
/// make another thing of it, and has no bracket, slash or quote.
pub open spec fn is_plain_tag(w: Seq<char>) -> bool {
    &&& w.len() > 0
    &&& w[0] != '!'
    &&& w[0] != '?'
    &&& forall|i: int|
        0 <= i < w.len() ==> #[trigger] w[i] != '>' && w[i] != '/' && w[i] != '"' && w[i] != '\''
}

proof fn lemma_in_tag(s: Seq<char>, w: Seq<char>)
    requires
        place_after(s) is Content,
        is_plain_tag(w),
    ensures
        place_after(s.push('<') + w) is Tag,
        open_elements(s.push('<') + w) == open_elements(s) + 1,
{
    let a = s.push('<');
    let b = a.push(w[0]);
    lemma_step(s, '<');
    lemma_step(a, w[0]);
    let rest = w.skip(1);
    assert forall|i: int| 0 <= i < rest.len() implies next_place(
        place_after(b),
        #[trigger] rest[i],
    ) == place_after(b) by {
        assert(rest[i] == w[i + 1]);
    }
    lemma_stay(b, rest);
    assert(b + rest =~= a + w);
}

/// A tag between elements opens one, a closing tag closes one, and an empty element leaves as
/// many open as before.
pub proof fn tags_open_and_close_elements(s: Seq<char>, w: Seq<char>)
    requires
        place_after(s) is Content,
        is_plain_tag(w),
    ensures
        place_after(s.push('<') + w.push('>')) is Content,
        open_elements(s.push('<') + w.push('>')) == open_elements(s) + 1,
        place_after(s.push('<').push('/') + w.push('>')) is Content,
        open_elements(s) > 0 ==> open_elements(s.push('<').push('/') + w.push('>'))
            == open_elements(s) - 1,
        place_after(s.push('<') + w.push('/').push('>')) is Content,
        open_elements(s.push('<') + w.push('/').push('>')) == open_elements(s),
{
    let a = s.push('<');
    lemma_in_tag(s, w);
    let b = a + w;
    lemma_step(b, '>');
    assert(b.push('>') =~= a + w.push('>'));
    lemma_step(b, '/');
    lemma_step(b.push('/'), '>');
    assert(b.push('/').push('>') =~= a + w.push('/').push('>'));
    let c = a.push('/');
    lemma_step(s, '<');
    lemma_step(a, '/');
    lemma_stay(c, w);
    lemma_step(c + w, '>');
    assert((c + w).push('>') =~= c + w.push('>'));
}

/// Text between tags, and a comment without a dash in it, whatever else it holds, open and close
/// nothing.
pub proof fn text_and_comments_open_nothing(s: Seq<char>, w: Seq<char>)
    requires
        place_after(s) is Content,
    ensures
        !w.contains('<') ==> place_after(s + w) is Content && open_elements(s + w)
            == open_elements(s),
        !w.contains('-') ==> place_after(s + "<!--"@ + w + "-->"@) is Content && open_elements(
            s + "<!--"@ + w + "-->"@,
        ) == open_elements(s),
{
    reveal_strlit("<!--");
    reveal_strlit("-->");
    if !w.contains('<') {
        assert forall|i: int| 0 <= i < w.len() implies next_place(
            Place::Content,
            #[trigger] w[i],
        ) == Place::Content by {
            assert(w.contains(w[i]));
        }
        lemma_stay(s, w);
    }
    if !w.contains('-') {
        let a = s.push('<');
        let b = a.push('!');
        let c = b.push('-');
        let d = c.push('-');
        lemma_step(s, '<');
        lemma_step(a, '!');
        lemma_step(b, '-');
        lemma_step(c, '-');
        assert(d =~= s + "<!--"@);
        assert forall|i: int| 0 <= i < w.len() implies next_place(
            Place::Comment,
            #[trigger] w[i],
        ) == Place::Comment by {
            assert(w.contains(w[i]));
        }
        lemma_stay(d, w);
        let e = d + w;
        lemma_step(e, '-');
        lemma_step(e.push('-'), '-');
        lemma_step(e.push('-').push('-'), '>');
        assert(e.push('-').push('-').push('>') =~= s + "<!--"@ + w + "-->"@);
    }
}

/// A value in quotes opens and closes nothing, whatever tags it seems to hold.
pub proof fn quoted_values_open_nothing(s: Seq<char>, w: Seq<char>)
    requires
        place_after(s) is Tag,
    ensures
        !w.contains('"') ==> place_after(s.push('"') + w.push('"')) is Tag && open_elements(
            s.push('"') + w.push('"'),
        ) == open_elements(s),
        !w.contains('\'') ==> place_after(s.push('\'') + w.push('\'')) is Tag && open_elements(
            s.push('\'') + w.push('\''),
        ) == open_elements(s),
{
    if !w.contains('"') {
        let a = s.push('"');
        lemma_step(s, '"');
        assert forall|i: int| 0 <= i < w.len() implies next_place(
            Place::DoubleQuoted,
            #[trigger] w[i],
        ) == Place::DoubleQuoted by {
            assert(w.contains(w[i]));
        }
        lemma_stay(a, w);
        lemma_step(a + w, '"');
        assert((a + w).push('"') =~= a + w.push('"'));
    }
    if !w.contains('\'') {
        let a = s.push('\'');
        lemma_step(s, '\'');
        assert forall|i: int| 0 <= i < w.len() implies next_place(
            Place::SingleQuoted,
            #[trigger] w[i],
        ) == Place::SingleQuoted by {
            assert(w.contains(w[i]));
        }
        lemma_stay(a, w);
        lemma_step(a + w, '\'');
        assert((a + w).push('\'') =~= a + w.push('\''));
    }
}

/// The nesting of a text is the greatest number of elements that are open behind any of its
/// characters.
pub proof fn nesting_is_the_most_open_at_once(s: Seq<char>, n: int)
    requires
        0 <= n <= s.len(),
    ensures
        open_elements(s.take(n)) <= nesting(s),
        exists|k: int| 0 <= k <= s.len() && #[trigger] open_elements(s.take(k)) == nesting(s),
    decreases s.len(),
{
    if s.len() == 0 {
        assert(s.take(0) =~= s);
        assert(open_elements(s.take(0)) == nesting(s));
    } else {
        let rest = s.drop_last();
        let m: int = if n < s.len() {
            n
        } else {
            0
        };
        nesting_is_the_most_open_at_once(rest, m);
        assert(rest.take(m) =~= s.take(m));
        assert(s.take(s.len() as int) =~= s);
        let k = choose|k: int|
            0 <= k <= rest.len() && #[trigger] open_elements(rest.take(k)) == nesting(rest);
        assert(rest.take(k) =~= s.take(k));
        if open_elements(s) > nesting(rest) {
            assert(open_elements(s.take(s.len() as int)) == nesting(s));
        } else {
            assert(open_elements(s.take(k)) == nesting(s));
        }
    }
}

/// A CDATA section and a processing instruction open and close nothing, whatever tags they seem
/// to hold.
pub proof fn sections_and_instructions_open_nothing(s: Seq<char>, w: Seq<char>)
    requires
        place_after(s) is Content,
    ensures
        !w.contains(']') ==> place_after(s + "<!["@ + w + "]]>"@) is Content && open_elements(
            s + "<!["@ + w + "]]>"@,
        ) == open_elements(s),
        !w.contains('?') ==> place_after(s + "<?"@ + w + "?>"@) is Content && open_elements(
            s + "<?"@ + w + "?>"@,
        ) == open_elements(s),
{
    reveal_strlit("<![");
    reveal_strlit("]]>");
    reveal_strlit("<?");
    reveal_strlit("?>");
    let a = s.push('<');
    lemma_step(s, '<');
    if !w.contains(']') {
        let b = a.push('!');
        let c = b.push('[');
        lemma_step(a, '!');
        lemma_step(b, '[');
        assert(c =~= s + "<!["@);
        assert forall|i: int| 0 <= i < w.len() implies next_place(
            Place::Cdata,
            #[trigger] w[i],
        ) == Place::Cdata by {
            assert(w.contains(w[i]));
        }
        lemma_stay(c, w);
        let e = c + w;
        lemma_step(e, ']');
        lemma_step(e.push(']'), ']');
        lemma_step(e.push(']').push(']'), '>');
        assert(e.push(']').push(']').push('>') =~= s + "<!["@ + w + "]]>"@);
    }
    if !w.contains('?') {
        let c = a.push('?');
        lemma_step(a, '?');
        assert(c =~= s + "<?"@);
        assert forall|i: int| 0 <= i < w.len() implies next_place(
            Place::Instruction,
            #[trigger] w[i],
        ) == Place::Instruction by {
            assert(w.contains(w[i]));
        }
        lemma_stay(c, w);
        let e = c + w;
        lemma_step(e, '?');
        lemma_step(e.push('?'), '>');
        assert(e.push('?').push('>') =~= s + "<?"@ + w + "?>"@);
    }
}

/// Comments, sections and instructions end at their first end, however many of its characters
/// stand before it, and not before.
pub proof fn ends_are_found_behind_repetitions(s: Seq<char>, c: char)
    ensures
        place_after(s) is CommentDashes ==> place_after(s.push('-')) is CommentDashes
            && place_after(s.push('>')) is Content && (c != '-' && c != '>' ==> place_after(
            s.push(c),
        ) is Comment),
        place_after(s) is CommentDash ==> place_after(s.push('-')) is CommentDashes && (c != '-'
            ==> place_after(s.push(c)) is Comment),
        place_after(s) is CdataBrackets ==> place_after(s.push(']')) is CdataBrackets
            && place_after(s.push('>')) is Content && (c != ']' && c != '>' ==> place_after(
            s.push(c),
        ) is Cdata),
        place_after(s) is CdataBracket ==> place_after(s.push(']')) is CdataBrackets && (c != ']'
            ==> place_after(s.push(c)) is Cdata),
        place_after(s) is InstructionEnd ==> place_after(s.push('?')) is InstructionEnd
            && place_after(s.push('>')) is Content && (c != '?' && c != '>' ==> place_after(
            s.push(c),
        ) is Instruction),
        place_after(s) is TagSlash && c != '>' ==> place_after(s.push(c)) is Tag,
        place_after(s) is MarkDash && c != '-' ==> place_after(s.push(c)) is Content,
        place_after(s) is Mark && c != '-' && c != '[' ==> place_after(s.push(c)) is Content,
{
    lemma_step(s, '-');
    lemma_step(s, ']');
    lemma_step(s, '?');
    lemma_step(s, '>');
    lemma_step(s, c);
}

/// A document is read exactly where it nests no deeper than the limit and is one.
pub proof fn shallow_documents_are_read(text: Seq<char>)
    ensures
        nesting(text) <= MAX_NESTING ==> tree(text) == xml_nodes(text),
        nesting(text) > MAX_NESTING ==> tree(text) is None,
{
}

} // verus!
