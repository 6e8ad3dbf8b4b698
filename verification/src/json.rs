//! The markup-to-value transcoder: a single-pass, event-driven state
//! machine that folds XML events into a structured value.
//!
//! The event stream itself comes from the `quick_xml` tokenizer behind a
//! trusted wrapper; everything from the events to the final value is
//! verified against the fold [`spec_build`].

use vstd::prelude::*;

use quick_xml::events::Event as QxEvent;

use crate::error::{Error, ErrorKind};
use crate::text::{
    chars_vec, collapse_chars, collapse_ws, is_ws, is_ws_chars, lower_of, string_from_chars,
    to_lowercase, trim_chars, trim_spec,
};
use crate::value::{
    arr_view, entries_view, lemma_arr_view, lemma_obj_view, obj_find, obj_find_idx, obj_set,
    obj_set_exec, spec_is_empty, JsonValue, SpecValue,
};

verus! {

/// One markup event, already decoded to plain strings: tag names, and
/// attribute names and values in document order. `has_attrs` records
/// whether the element carried any attribute token at all, well-formed
/// or not.
pub enum XmlEvent {
    /// An element start tag.
    Start { name: String, attrs: Vec<(String, String)>, has_attrs: bool },
    /// An element end tag.
    End { name: String },
    /// A self-closing element.
    Empty { name: String, attrs: Vec<(String, String)>, has_attrs: bool },
    /// Character data.
    Text { data: String },
    /// Literal character data from a CDATA section.
    CData { data: String },
}

/// The mathematical model of one markup event.
pub enum SpecEvent {
    Start { name: Seq<char>, attrs: Seq<(Seq<char>, Seq<char>)>, has_attrs: bool },
    End { name: Seq<char> },
    Empty { name: Seq<char>, attrs: Seq<(Seq<char>, Seq<char>)>, has_attrs: bool },
    Text { data: Seq<char> },
    CData { data: Seq<char> },
}

/// The model of an attribute list.
pub open spec fn attrs_view(attrs: Seq<(String, String)>) -> Seq<(Seq<char>, Seq<char>)> {
    Seq::new(attrs.len(), |i: int| (attrs[i].0@, attrs[i].1@))
}

impl View for XmlEvent {
    type V = SpecEvent;

    open spec fn view(&self) -> SpecEvent {
        match self {
            XmlEvent::Start { name, attrs, has_attrs } => SpecEvent::Start {
                name: name@,
                attrs: attrs_view(attrs@),
                has_attrs: *has_attrs,
            },
            XmlEvent::End { name } => SpecEvent::End { name: name@ },
            XmlEvent::Empty { name, attrs, has_attrs } => SpecEvent::Empty {
                name: name@,
                attrs: attrs_view(attrs@),
                has_attrs: *has_attrs,
            },
            XmlEvent::Text { data } => SpecEvent::Text { data: data@ },
            XmlEvent::CData { data } => SpecEvent::CData { data: data@ },
        }
    }
}

/// The model of an event list.
pub open spec fn events_view(evs: Seq<XmlEvent>) -> Seq<SpecEvent> {
    Seq::new(evs.len(), |i: int| evs[i]@)
}

/// The name of what the tokenizer yields on a markup text: either its
/// meaningful events (starts, ends, self-closing elements, text, CDATA),
/// or the kind and detail of the first tokenizer error.
pub uninterp spec fn xml_events(s: Seq<char>) -> Result<Seq<SpecEvent>, (ErrorKind, Seq<char>)>;

/// The immutable decode policy: the named keys and flags that drive the
/// markup-to-value transcoder.
pub struct JsonPolicy {
    pub charkey: Seq<char>,
    pub attrkey: Seq<char>,
    pub empty_tag: Seq<char>,
    pub explicit_root: bool,
    pub trim: bool,
    pub ignore_attrs: bool,
    pub merge_attrs: bool,
    pub normalize_text: bool,
    pub lowercase_tags: bool,
    pub explicit_array: bool,
    pub explicit_charkey: bool,
}

/// One open element during parsing: the entries collected so far and the
/// text buffer with its literal flag.
pub struct SpecNode {
    pub entries: Seq<(Seq<char>, SpecValue)>,
    pub text: Seq<char>,
    pub literal: bool,
}

/// The whole parse state: the open-element stack and the output produced
/// by the last root element that closed.
pub struct SpecParse {
    pub stack: Seq<SpecNode>,
    pub output: SpecValue,
}

/// The assign-or-push rule. A first write at an absent key stores a
/// one-element list when `explicit_array` is set, else the value itself;
/// a later write at the same key wraps a scalar into a list and appends.
pub open spec fn spec_assign_or_push(
    explicit_array: bool,
    entries: Seq<(Seq<char>, SpecValue)>,
    key: Seq<char>,
    v: SpecValue,
) -> Seq<(Seq<char>, SpecValue)> {
    match obj_find(entries, key) {
        None => {
            if explicit_array {
                entries.push((key, SpecValue::Arr(seq![v])))
            } else {
                entries.push((key, v))
            }
        },
        Some(i) => {
            let cur = entries[i].1;
            let arr = if cur is Arr {
                cur->Arr_0
            } else {
                seq![cur]
            };
            entries.update(i, (key, SpecValue::Arr(arr.push(v))))
        },
    }
}

/// Attributes merged directly into the element's own map, in document
/// order, through the assign-or-push rule.
pub open spec fn spec_merge_attrs(
    explicit_array: bool,
    entries: Seq<(Seq<char>, SpecValue)>,
    attrs: Seq<(Seq<char>, Seq<char>)>,
) -> Seq<(Seq<char>, SpecValue)>
    decreases attrs.len(),
{
    if attrs.len() == 0 {
        entries
    } else {
        spec_merge_attrs(
            explicit_array,
            spec_assign_or_push(explicit_array, entries, attrs[0].0, SpecValue::Str(attrs[0].1)),
            attrs.drop_first(),
        )
    }
}

/// Attributes collected into their own map, in document order; a
/// repeated name overwrites the earlier value.
pub open spec fn spec_attr_map(
    m: Seq<(Seq<char>, SpecValue)>,
    attrs: Seq<(Seq<char>, Seq<char>)>,
) -> Seq<(Seq<char>, SpecValue)>
    decreases attrs.len(),
{
    if attrs.len() == 0 {
        m
    } else {
        spec_attr_map(obj_set(m, attrs[0].0, SpecValue::Str(attrs[0].1)), attrs.drop_first())
    }
}

/// The node pushed for an element start: its attributes become entries
/// as the policy directs, its text buffer starts empty.
pub open spec fn spec_start_node(
    p: JsonPolicy,
    attrs: Seq<(Seq<char>, Seq<char>)>,
    has_attrs: bool,
) -> SpecNode {
    let entries: Seq<(Seq<char>, SpecValue)> = if p.ignore_attrs {
        Seq::empty()
    } else if p.merge_attrs {
        spec_merge_attrs(p.explicit_array, Seq::empty(), attrs)
    } else if has_attrs {
        seq![(p.attrkey, SpecValue::Obj(spec_attr_map(Seq::empty(), attrs)))]
    } else {
        Seq::empty()
    };
    SpecNode { entries, text: Seq::empty(), literal: false }
}

/// Text appended to the top node's buffer. When normalize-text is set
/// and the buffer already holds text, the buffered part has its
/// whitespace runs collapsed first; the new chunk is appended as it is.
pub open spec fn spec_add_text(p: JsonPolicy, stack: Seq<SpecNode>, data: Seq<char>) -> Seq<
    SpecNode,
> {
    if stack.len() == 0 {
        stack
    } else {
        let n = stack.last();
        let t = if p.normalize_text && n.text.len() > 0 {
            collapse_ws(n.text) + data
        } else {
            n.text + data
        };
        stack.update(stack.len() - 1, SpecNode { text: t, ..n })
    }
}

/// CDATA text: appended like ordinary text, and the node is marked
/// literal.
pub open spec fn spec_add_cdata(p: JsonPolicy, stack: Seq<SpecNode>, data: Seq<char>) -> Seq<
    SpecNode,
> {
    let s1 = spec_add_text(p, stack, data);
    if s1.len() == 0 {
        s1
    } else {
        s1.update(s1.len() - 1, SpecNode { literal: true, ..s1.last() })
    }
}

/// The finished value of a node at its close. Pure-whitespace text of a
/// non-literal node is stashed; other text is trimmed and normalized per
/// policy and stored as the scalar itself or under the char-key. A value
/// still empty afterwards becomes the empty-tag text, or the stashed
/// whitespace.
pub open spec fn spec_close_value(p: JsonPolicy, n: SpecNode) -> SpecValue {
    let stash = is_ws(n.text) && !n.literal;
    let v1 = if stash {
        SpecValue::Obj(n.entries)
    } else {
        let t1 = if p.trim {
            trim_spec(n.text)
        } else {
            n.text
        };
        let t2 = if p.normalize_text {
            trim_spec(collapse_ws(t1))
        } else {
            t1
        };
        if n.entries.len() == 0 && !p.explicit_charkey {
            SpecValue::Str(t2)
        } else {
            SpecValue::Obj(obj_set(n.entries, p.charkey, SpecValue::Str(t2)))
        }
    };
    if spec_is_empty(v1) {
        if p.empty_tag.len() > 0 {
            SpecValue::Str(p.empty_tag)
        } else {
            SpecValue::Str(
                if stash {
                    n.text
                } else {
                    Seq::empty()
                },
            )
        }
    } else {
        v1
    }
}

/// An element end on the bare stack: the top node is popped and its
/// finished value folds into its parent under the (optionally
/// lowercased) tag name; when it was the root, the value is produced,
/// wrapped in a single-entry map if explicit-root is set. An end tag on
/// an empty stack is an error.
pub open spec fn spec_end(p: JsonPolicy, stack: Seq<SpecNode>, name: Seq<char>) -> Result<
    (Seq<SpecNode>, Option<SpecValue>),
    (),
> {
    if stack.len() == 0 {
        Err(())
    } else {
        let close_tag = if p.lowercase_tags {
            lower_of(name)
        } else {
            name
        };
        let v = spec_close_value(p, stack.last());
        let rest = stack.drop_last();
        if rest.len() > 0 {
            let parent = rest.last();
            let parent2 = SpecNode {
                entries: spec_assign_or_push(p.explicit_array, parent.entries, close_tag, v),
                ..parent
            };
            Ok((rest.update(rest.len() - 1, parent2), None))
        } else {
            let out = if p.explicit_root {
                SpecValue::Obj(seq![(close_tag, v)])
            } else {
                v
            };
            Ok((rest, Some(out)))
        }
    }
}

/// An element end on the whole parse state.
pub open spec fn spec_process_end(p: JsonPolicy, st: SpecParse, name: Seq<char>) -> Result<
    SpecParse,
    (),
> {
    match spec_end(p, st.stack, name) {
        Err(()) => Err(()),
        Ok((stk, out)) => Ok(
            SpecParse {
                stack: stk,
                output: match out {
                    Some(v) => v,
                    None => st.output,
                },
            },
        ),
    }
}

/// One step of the state machine. A self-closing element is processed as
/// a start immediately followed by an end.
pub open spec fn spec_step(p: JsonPolicy, st: SpecParse, ev: SpecEvent) -> Result<SpecParse, ()> {
    match ev {
        SpecEvent::Start { name, attrs, has_attrs } => Ok(
            SpecParse { stack: st.stack.push(spec_start_node(p, attrs, has_attrs)), ..st },
        ),
        SpecEvent::Text { data } => Ok(SpecParse { stack: spec_add_text(p, st.stack, data), ..st }),
        SpecEvent::CData { data } => Ok(
            SpecParse { stack: spec_add_cdata(p, st.stack, data), ..st },
        ),
        SpecEvent::End { name } => spec_process_end(p, st, name),
        SpecEvent::Empty { name, attrs, has_attrs } => {
            let st1 = SpecParse {
                stack: st.stack.push(spec_start_node(p, attrs, has_attrs)),
                ..st
            };
            spec_process_end(p, st1, name)
        },
    }
}

/// The state after a prefix of the event stream, starting from the empty
/// stack and a null output.
pub open spec fn spec_run(p: JsonPolicy, evs: Seq<SpecEvent>) -> Result<SpecParse, ()>
    decreases evs.len(),
{
    if evs.len() == 0 {
        Ok(SpecParse { stack: Seq::empty(), output: SpecValue::Null })
    } else {
        match spec_run(p, evs.drop_last()) {
            Err(()) => Err(()),
            Ok(st) => spec_step(p, st, evs.last()),
        }
    }
}

/// What the whole event stream decodes to: the output of the run, or an
/// error when an end tag found the stack empty (`Err(true)`) or the
/// stream left elements open (`Err(false)`).
pub open spec fn spec_build(p: JsonPolicy, evs: Seq<SpecEvent>) -> Result<SpecValue, bool> {
    match spec_run(p, evs) {
        Err(()) => Err(true),
        Ok(st) => if st.stack.len() > 0 {
            Err(false)
        } else {
            Ok(st.output)
        },
    }
}


/// The configuration fields before defaulting.
pub struct JsonConfigView {
    pub charkey: Option<Seq<char>>,
    pub attrkey: Option<Seq<char>>,
    pub empty_tag: Option<Seq<char>>,
    pub explicit_root: Option<bool>,
    pub trim: Option<bool>,
    pub ignore_attrs: Option<bool>,
    pub merge_attrs: Option<bool>,
    pub normalize_text: Option<bool>,
    pub lowercase_tags: Option<bool>,
    pub explicit_array: Option<bool>,
    pub explicit_charkey: Option<bool>,
}

/// Configuration options for `JsonBuilder`, built up in the builder
/// pattern; unset options take their defaults at `finalize`.
pub struct JsonConfig {
    charkey: Option<String>,
    attrkey: Option<String>,
    empty_tag: Option<String>,
    explicit_root: Option<bool>,
    trim: Option<bool>,
    ignore_attrs: Option<bool>,
    merge_attrs: Option<bool>,
    normalize_text: Option<bool>,
    lowercase_tags: Option<bool>,
    explicit_array: Option<bool>,
    explicit_charkey: Option<bool>,
}

impl View for JsonConfig {
    type V = JsonConfigView;

    closed spec fn view(&self) -> JsonConfigView {
        JsonConfigView {
            charkey: match self.charkey {
                Some(s) => Some(s@),
                None => None,
            },
            attrkey: match self.attrkey {
                Some(s) => Some(s@),
                None => None,
            },
            empty_tag: match self.empty_tag {
                Some(s) => Some(s@),
                None => None,
            },
            explicit_root: self.explicit_root,
            trim: self.trim,
            ignore_attrs: self.ignore_attrs,
            merge_attrs: self.merge_attrs,
            normalize_text: self.normalize_text,
            lowercase_tags: self.lowercase_tags,
            explicit_array: self.explicit_array,
            explicit_charkey: self.explicit_charkey,
        }
    }
}

/// The configuration with every option unset.
pub open spec fn spec_unset_config() -> JsonConfigView {
    JsonConfigView {
        charkey: None,
        attrkey: None,
        empty_tag: None,
        explicit_root: None,
        trim: None,
        ignore_attrs: None,
        merge_attrs: None,
        normalize_text: None,
        lowercase_tags: None,
        explicit_array: None,
        explicit_charkey: None,
    }
}

/// The policy that an unset configuration finalizes to.
pub open spec fn spec_finalize(c: JsonConfigView) -> JsonPolicy {
    JsonPolicy {
        charkey: match c.charkey {
            Some(s) => s,
            None => "_"@,
        },
        attrkey: match c.attrkey {
            Some(s) => s,
            None => "$"@,
        },
        empty_tag: match c.empty_tag {
            Some(s) => s,
            None => ""@,
        },
        explicit_root: match c.explicit_root {
            Some(b) => b,
            None => true,
        },
        trim: match c.trim {
            Some(b) => b,
            None => false,
        },
        ignore_attrs: match c.ignore_attrs {
            Some(b) => b,
            None => false,
        },
        merge_attrs: match c.merge_attrs {
            Some(b) => b,
            None => false,
        },
        normalize_text: match c.normalize_text {
            Some(b) => b,
            None => false,
        },
        lowercase_tags: match c.lowercase_tags {
            Some(b) => b,
            None => false,
        },
        explicit_array: match c.explicit_array {
            Some(b) => b,
            None => true,
        },
        explicit_charkey: match c.explicit_charkey {
            Some(b) => b,
            None => false,
        },
    }
}

impl JsonConfig {
    /// Initialize a new `JsonConfig` instance with every option unset.
    pub fn new() -> (r: JsonConfig)
        ensures
            r@ == spec_unset_config(),
    {
        JsonConfig {
            charkey: None,
            attrkey: None,
            empty_tag: None,
            explicit_root: None,
            trim: None,
            ignore_attrs: None,
            merge_attrs: None,
            normalize_text: None,
            lowercase_tags: None,
            explicit_array: None,
            explicit_charkey: None,
        }
    }

    /// Key to store character content under (`"_"` by default).
    pub fn charkey(self, key: &str) -> (r: JsonConfig)
        ensures
            r@ == (JsonConfigView { charkey: Some(key@), ..self@ }),
    {
        JsonConfig { charkey: Some(key.to_owned()), ..self }
    }

    /// Key for the object containing tag attributes (`"$"` by default).
    pub fn attrkey(self, key: &str) -> (r: JsonConfig)
        ensures
            r@ == (JsonConfigView { attrkey: Some(key@), ..self@ }),
    {
        JsonConfig { attrkey: Some(key.to_owned()), ..self }
    }

    /// The value of empty nodes (`""` by default).
    pub fn empty_tag(self, key: &str) -> (r: JsonConfig)
        ensures
            r@ == (JsonConfigView { empty_tag: Some(key@), ..self@ }),
    {
        JsonConfig { empty_tag: Some(key.to_owned()), ..self }
    }

    /// Sets the root node inside the resulting object (`true` by default).
    pub fn explicit_root(self, flag: bool) -> (r: JsonConfig)
        ensures
            r@ == (JsonConfigView { explicit_root: Some(flag), ..self@ }),
    {
        JsonConfig { explicit_root: Some(flag), ..self }
    }

    /// Trim whitespace at both ends of text nodes (`false` by default).
    pub fn trim(self, flag: bool) -> (r: JsonConfig)
        ensures
            r@ == (JsonConfigView { trim: Some(flag), ..self@ }),
    {
        JsonConfig { trim: Some(flag), ..self }
    }

    /// Ignore attributes: skip adding element attributes and create text
    /// nodes (`false` by default).
    pub fn ignore_attrs(self, flag: bool) -> (r: JsonConfig)
        ensures
            r@ == (JsonConfigView { ignore_attrs: Some(flag), ..self@ }),
    {
        JsonConfig { ignore_attrs: Some(flag), ..self }
    }

    /// Merge attributes and child elements as properties of the parent
    /// instead of keying attributes off a child attribute object; ignored
    /// if `ignore_attrs` is set (`false` by default).
    pub fn merge_attrs(self, flag: bool) -> (r: JsonConfig)
        ensures
            r@ == (JsonConfigView { merge_attrs: Some(flag), ..self@ }),
    {
        JsonConfig { merge_attrs: Some(flag), ..self }
    }

    /// Removes whitespace character data in text nodes: a superset of
    /// `trim` that also collapses blank space between other text data to
    /// a single space (`false` by default).
    pub fn normalize_text(self, flag: bool) -> (r: JsonConfig)
        ensures
            r@ == (JsonConfigView { normalize_text: Some(flag), ..self@ }),
    {
        JsonConfig { normalize_text: Some(flag), ..self }
    }

    /// Normalize all tags by converting them to lowercase (`false` by
    /// default).
    pub fn lowercase_tags(self, flag: bool) -> (r: JsonConfig)
        ensures
            r@ == (JsonConfigView { lowercase_tags: Some(flag), ..self@ }),
    {
        JsonConfig { lowercase_tags: Some(flag), ..self }
    }

    /// Always put child nodes in an array; otherwise an array is created
    /// only for more than one child (`true` by default).
    pub fn explicit_array(self, flag: bool) -> (r: JsonConfig)
        ensures
            r@ == (JsonConfigView { explicit_array: Some(flag), ..self@ }),
    {
        JsonConfig { explicit_array: Some(flag), ..self }
    }

    /// Always store character data under the char-key even when the tag
    /// holds nothing else (`false` by default).
    pub fn explicit_charkey(self, flag: bool) -> (r: JsonConfig)
        ensures
            r@ == (JsonConfigView { explicit_charkey: Some(flag), ..self@ }),
    {
        JsonConfig { explicit_charkey: Some(flag), ..self }
    }

    /// Finalize configuration options and build a `JsonBuilder` instance.
    pub fn finalize(&self) -> (r: JsonBuilder)
        ensures
            r@ == spec_finalize(self@),
    {
        JsonBuilder {
            charkey: match &self.charkey {
                Some(s) => s.clone(),
                None => "_".to_owned(),
            },
            attrkey: match &self.attrkey {
                Some(s) => s.clone(),
                None => "$".to_owned(),
            },
            empty_tag: match &self.empty_tag {
                Some(s) => s.clone(),
                None => "".to_owned(),
            },
            explicit_root: match self.explicit_root {
                Some(b) => b,
                None => true,
            },
            trim: match self.trim {
                Some(b) => b,
                None => false,
            },
            ignore_attrs: match self.ignore_attrs {
                Some(b) => b,
                None => false,
            },
            merge_attrs: match self.merge_attrs {
                Some(b) => b,
                None => false,
            },
            normalize_text: match self.normalize_text {
                Some(b) => b,
                None => false,
            },
            lowercase_tags: match self.lowercase_tags {
                Some(b) => b,
                None => false,
            },
            explicit_array: match self.explicit_array {
                Some(b) => b,
                None => true,
            },
            explicit_charkey: match self.explicit_charkey {
                Some(b) => b,
                None => false,
            },
        }
    }
}

impl Default for JsonConfig {
    /// Every option unset.
    fn default() -> (r: JsonConfig)
        ensures
            r@ == spec_unset_config(),
    {
        JsonConfig::new()
    }
}

/// The markup-to-value transcoder, holding one immutable decode policy.
pub struct JsonBuilder {
    charkey: String,
    attrkey: String,
    empty_tag: String,
    explicit_root: bool,
    trim: bool,
    ignore_attrs: bool,
    merge_attrs: bool,
    normalize_text: bool,
    lowercase_tags: bool,
    explicit_array: bool,
    explicit_charkey: bool,
}

impl View for JsonBuilder {
    type V = JsonPolicy;

    closed spec fn view(&self) -> JsonPolicy {
        JsonPolicy {
            charkey: self.charkey@,
            attrkey: self.attrkey@,
            empty_tag: self.empty_tag@,
            explicit_root: self.explicit_root,
            trim: self.trim,
            ignore_attrs: self.ignore_attrs,
            merge_attrs: self.merge_attrs,
            normalize_text: self.normalize_text,
            lowercase_tags: self.lowercase_tags,
            explicit_array: self.explicit_array,
            explicit_charkey: self.explicit_charkey,
        }
    }
}

impl Default for JsonBuilder {
    /// The builder under the default policy.
    fn default() -> (r: JsonBuilder)
        ensures
            r@ == spec_finalize(spec_unset_config()),
    {
        JsonConfig::new().finalize()
    }
}

// One open element: the entries collected so far and the text buffer.
struct Node {
    entries: Vec<(String, JsonValue)>,
    text: Vec<char>,
    literal: bool,
}

spec fn node_view(n: Node) -> SpecNode {
    SpecNode { entries: entries_view(n.entries@), text: n.text@, literal: n.literal }
}

spec fn stack_view(s: Seq<Node>) -> Seq<SpecNode> {
    Seq::new(s.len(), |i: int| node_view(s[i]))
}

proof fn lemma_merge_attrs_snoc(
    explicit_array: bool,
    entries: Seq<(Seq<char>, SpecValue)>,
    attrs: Seq<(Seq<char>, Seq<char>)>,
    a: (Seq<char>, Seq<char>),
)
    ensures
        spec_merge_attrs(explicit_array, entries, attrs.push(a)) == spec_assign_or_push(
            explicit_array,
            spec_merge_attrs(explicit_array, entries, attrs),
            a.0,
            SpecValue::Str(a.1),
        ),
    decreases attrs.len(),
{
    let whole = attrs.push(a);
    assert(whole.len() == attrs.len() + 1);
    if attrs.len() == 0 {
        assert(whole[0] == a);
        assert(whole.drop_first() =~= Seq::<(Seq<char>, Seq<char>)>::empty());
        assert(spec_merge_attrs(explicit_array, entries, whole) == spec_merge_attrs(
            explicit_array,
            spec_assign_or_push(explicit_array, entries, a.0, SpecValue::Str(a.1)),
            Seq::empty(),
        ));
        assert(spec_merge_attrs(explicit_array, entries, attrs) == entries);
    } else {
        assert(whole[0] == attrs[0]);
        assert(whole.drop_first() =~= attrs.drop_first().push(a));
        let e2 = spec_assign_or_push(
            explicit_array,
            entries,
            attrs[0].0,
            SpecValue::Str(attrs[0].1),
        );
        lemma_merge_attrs_snoc(explicit_array, e2, attrs.drop_first(), a);
        assert(spec_merge_attrs(explicit_array, entries, whole) == spec_merge_attrs(
            explicit_array,
            e2,
            whole.drop_first(),
        ));
        assert(spec_merge_attrs(explicit_array, entries, attrs) == spec_merge_attrs(
            explicit_array,
            e2,
            attrs.drop_first(),
        ));
    }
}

proof fn lemma_attr_map_snoc(
    m: Seq<(Seq<char>, SpecValue)>,
    attrs: Seq<(Seq<char>, Seq<char>)>,
    a: (Seq<char>, Seq<char>),
)
    ensures
        spec_attr_map(m, attrs.push(a)) == obj_set(spec_attr_map(m, attrs), a.0, SpecValue::Str(a.1)),
    decreases attrs.len(),
{
    let whole = attrs.push(a);
    assert(whole.len() == attrs.len() + 1);
    if attrs.len() == 0 {
        assert(whole[0] == a);
        assert(whole.drop_first() =~= Seq::<(Seq<char>, Seq<char>)>::empty());
        assert(spec_attr_map(m, whole) == spec_attr_map(
            obj_set(m, a.0, SpecValue::Str(a.1)),
            Seq::empty(),
        ));
        assert(spec_attr_map(m, attrs) == m);
    } else {
        assert(whole[0] == attrs[0]);
        assert(whole.drop_first() =~= attrs.drop_first().push(a));
        let m2 = obj_set(m, attrs[0].0, SpecValue::Str(attrs[0].1));
        lemma_attr_map_snoc(m2, attrs.drop_first(), a);
        assert(spec_attr_map(m, whole) == spec_attr_map(m2, whole.drop_first()));
        assert(spec_attr_map(m, attrs) == spec_attr_map(m2, attrs.drop_first()));
    }
}

impl JsonBuilder {
    /// Whether the text matches only whitespace characters.
    pub fn is_whitespace(&self, value: &str) -> (r: bool)
        ensures
            r == is_ws(value@),
    {
        let v = chars_vec(value);
        is_ws_chars(v.as_slice())
    }

    // The assign-or-push rule on a map's entry list.
    fn assign_entries(&self, entries: &mut Vec<(String, JsonValue)>, key: &str, value: JsonValue)
        ensures
            entries_view(final (entries)@) == spec_assign_or_push(
                self@.explicit_array,
                entries_view(old(entries)@),
                key@,
                value@,
            ),
    {
        let ghost ev0 = entries_view(old(entries)@);
        match obj_find_idx(entries, key) {
            None => {
                if self.explicit_array {
                    let mut arr: Vec<JsonValue> = Vec::new();
                    arr.push(value);
                    proof {
                        assert(arr_view(arr@) =~= seq![value@]);
                        lemma_arr_view(arr);
                    }
                    entries.push((key.to_owned(), JsonValue::Arr(arr)));
                    proof {
                        assert(entries_view(entries@) =~= ev0.push(
                            (key@, SpecValue::Arr(seq![value@])),
                        ));
                    }
                } else {
                    entries.push((key.to_owned(), value));
                    proof {
                        assert(entries_view(entries@) =~= ev0.push((key@, value@)));
                    }
                }
            },
            Some(i) => {
                let (k_old, cur) = entries.remove(i);
                let mut arr: Vec<JsonValue> = match cur {
                    JsonValue::Arr(a) => a,
                    other => {
                        let mut w: Vec<JsonValue> = Vec::new();
                        w.push(other);
                        w
                    },
                };
                let ghost cur_v = ev0[i as int].1;
                proof {
                    if cur_v is Arr {
                        assert(arr_view(arr@) =~= cur_v->Arr_0);
                    } else {
                        assert(arr_view(arr@) =~= seq![cur_v]);
                    }
                }
                let ghost arr0 = arr_view(arr@);
                arr.push(value);
                proof {
                    assert(arr_view(arr@) =~= arr0.push(value@));
                }
                entries.insert(i, (k_old, JsonValue::Arr(arr)));
                proof {
                    lemma_arr_view(arr);
                    assert(ev0[i as int].0 == key@) by {
                        crate::value::lemma_obj_find_spec(ev0, key@);
                    }
                    assert(entries_view(entries@) =~= ev0.update(
                        i as int,
                        (key@, SpecValue::Arr(arr0.push(value@))),
                    ));
                }
            },
        }
    }

    /// The assign-or-push rule: builds out a map value. With
    /// explicit-array set, a new key gets a one-element list and later
    /// writes append; without it, the first write stores the value
    /// itself and a second write promotes it to a list.
    pub fn assign_or_push(&self, object: &mut JsonValue, key: &str, value: JsonValue)
        requires
            old(object)@ is Obj || old(object)@ is Null,
        ensures
            old(object)@ is Obj ==> final (object)@ == SpecValue::Obj(
                spec_assign_or_push(
                    self@.explicit_array,
                    old(object)@->Obj_0,
                    key@,
                    value@,
                ),
            ),
            old(object)@ is Null ==> final (object)@ == SpecValue::Obj(
                spec_assign_or_push(self@.explicit_array, Seq::empty(), key@, value@),
            ),
    {
        match object {
            JsonValue::Obj(entries) => {
                proof {
                    assert(entries_view(entries@) =~= old(object)@->Obj_0);
                }
                self.assign_entries(entries, key, value);
                proof {
                    lemma_obj_view(*entries);
                }
            },
            JsonValue::Null => {
                let mut entries: Vec<(String, JsonValue)> = Vec::new();
                proof {
                    assert(entries_view(entries@) =~= Seq::<(Seq<char>, SpecValue)>::empty());
                }
                self.assign_entries(&mut entries, key, value);
                proof {
                    lemma_obj_view(entries);
                }
                *object = JsonValue::Obj(entries);
            },
            _ => {
                proof {
                    assert(false);
                }
            },
        }
    }
}

impl JsonBuilder {
    // Process an element start: push a node holding the attributes as
    // the policy directs.
    fn process_start(&self, attrs: &Vec<(String, String)>, has_attrs: bool, stack: &mut Vec<Node>)
        ensures
            stack_view(final (stack)@) == stack_view(old(stack)@).push(
                spec_start_node(self@, attrs_view(attrs@), has_attrs),
            ),
    {
        let ghost av = attrs_view(attrs@);
        let mut entries: Vec<(String, JsonValue)> = Vec::new();
        if !self.ignore_attrs {
            if self.merge_attrs {
                let mut i: usize = 0;
                proof {
                    assert(av.take(0) =~= Seq::<(Seq<char>, Seq<char>)>::empty());
                    assert(entries_view(entries@) =~= Seq::<(Seq<char>, SpecValue)>::empty());
                }
                while i < attrs.len()
                    invariant
                        0 <= i <= attrs@.len(),
                        av == attrs_view(attrs@),
                        entries_view(entries@) == spec_merge_attrs(
                            self@.explicit_array,
                            Seq::empty(),
                            av.take(i as int),
                        ),
                    decreases attrs@.len() - i,
                {
                    let key = attrs[i].0.clone();
                    let val = attrs[i].1.clone();
                    self.assign_entries(&mut entries, key.as_str(), JsonValue::Str(val));
                    proof {
                        assert(av[i as int] == (attrs@[i as int].0@, attrs@[i as int].1@));
                        assert(av.take(i + 1) =~= av.take(i as int).push(av[i as int]));
                        lemma_merge_attrs_snoc(
                            self@.explicit_array,
                            Seq::empty(),
                            av.take(i as int),
                            av[i as int],
                        );
                    }
                    i = i + 1;
                }
                proof {
                    assert(av.take(attrs@.len() as int) =~= av);
                }
            } else if has_attrs {
                let mut m: Vec<(String, JsonValue)> = Vec::new();
                let mut i: usize = 0;
                proof {
                    assert(av.take(0) =~= Seq::<(Seq<char>, Seq<char>)>::empty());
                    assert(entries_view(m@) =~= Seq::<(Seq<char>, SpecValue)>::empty());
                }
                while i < attrs.len()
                    invariant
                        0 <= i <= attrs@.len(),
                        av == attrs_view(attrs@),
                        entries_view(m@) == spec_attr_map(Seq::empty(), av.take(i as int)),
                    decreases attrs@.len() - i,
                {
                    let key = attrs[i].0.clone();
                    let val = attrs[i].1.clone();
                    obj_set_exec(&mut m, key.as_str(), JsonValue::Str(val));
                    proof {
                        assert(av[i as int] == (attrs@[i as int].0@, attrs@[i as int].1@));
                        assert(av.take(i + 1) =~= av.take(i as int).push(av[i as int]));
                        lemma_attr_map_snoc(Seq::empty(), av.take(i as int), av[i as int]);
                    }
                    i = i + 1;
                }
                proof {
                    assert(av.take(attrs@.len() as int) =~= av);
                }
                let sub = JsonValue::Obj(m);
                proof {
                    lemma_obj_view(sub->Obj_0);
                }
                entries.push((self.attrkey.clone(), sub));
            }
        }
        let node = Node { entries, text: Vec::new(), literal: false };
        stack.push(node);
        proof {
            let sn = spec_start_node(self@, av, has_attrs);
            assert(node_view(stack@.last()).entries =~= sn.entries);
            assert(node_view(stack@.last()).text =~= sn.text);
            assert(stack_view(stack@) =~= stack_view(old(stack)@).push(sn));
        }
    }

    // Process character data: append it to the top node's buffer,
    // collapsing whatever the buffer already held when normalize-text is
    // set.
    fn process_text(&self, data: &str, stack: &mut Vec<Node>)
        ensures
            stack_view(final (stack)@) == spec_add_text(self@, stack_view(old(stack)@), data@),
    {
        let popped = stack.pop();
        match popped {
            None => {
                proof {
                    assert(stack_view(stack@) =~= spec_add_text(
                        self@,
                        stack_view(old(stack)@),
                        data@,
                    ));
                }
            },
            Some(mut n) => {
                let ghost n0 = node_view(n);
                if self.normalize_text && n.text.len() > 0 {
                    let collapsed = collapse_chars(n.text.as_slice());
                    n.text = collapsed;
                }
                let mut d = chars_vec(data);
                n.text.append(&mut d);
                stack.push(n);
                proof {
                    let sv0 = stack_view(old(stack)@);
                    assert(sv0.last() == n0);
                    assert(stack_view(stack@) =~= spec_add_text(self@, sv0, data@));
                }
            },
        }
    }

    // Process CDATA: append like text, and mark the node literal.
    fn process_cdata(&self, data: &str, stack: &mut Vec<Node>)
        ensures
            stack_view(final (stack)@) == spec_add_cdata(self@, stack_view(old(stack)@), data@),
    {
        self.process_text(data, stack);
        let popped = stack.pop();
        match popped {
            None => {
                proof {
                    assert(stack_view(stack@) =~= spec_add_cdata(
                        self@,
                        stack_view(old(stack)@),
                        data@,
                    ));
                }
            },
            Some(mut n) => {
                n.literal = true;
                stack.push(n);
                proof {
                    let s1 = spec_add_text(self@, stack_view(old(stack)@), data@);
                    assert(stack_view(stack@) =~= s1.update(
                        s1.len() - 1,
                        SpecNode { literal: true, ..s1.last() },
                    ));
                }
            },
        }
    }

    // Process an element end: pop the top node, decide its final value,
    // and fold it into the parent, or yield it as the root output.
    fn process_end(&self, tag: &str, stack: &mut Vec<Node>) -> (r: Result<
        Option<JsonValue>,
        Error,
    >)
        ensures
            match spec_end(self@, stack_view(old(stack)@), tag@) {
                Err(()) => {
                    &&& r is Err
                    &&& r->Err_0.kind() == ErrorKind::Unknown
                    &&& r->Err_0.details()@ == "Expected stack item at close tag."@
                    &&& stack_view(final (stack)@) == stack_view(old(stack)@)
                },
                Ok(res) => {
                    &&& r is Ok
                    &&& stack_view(final (stack)@) == res.0
                    &&& match res.1 {
                        None => r->Ok_0 is None,
                        Some(v) => r->Ok_0 is Some && r->Ok_0->0@ == v,
                    }
                },
            },
    {
        let close_tag: String = if self.lowercase_tags {
            to_lowercase(tag)
        } else {
            tag.to_owned()
        };
        if stack.len() == 0 {
            return Err(Error::new(ErrorKind::Unknown, "Expected stack item at close tag."));
        }
        let ghost sv0 = stack_view(old(stack)@);
        let inner = stack.pop().unwrap();
        proof {
            assert(node_view(inner) == sv0.last());
            assert(stack_view(stack@) =~= sv0.drop_last());
        }
        let ghost inner_v = node_view(inner);
        let is_white = self.is_whitespace_chars(&inner.text);
        let stash = is_white && !inner.literal;
        let mut whitespace: Vec<char> = Vec::new();
        let mut value: JsonValue;
        if stash {
            whitespace = inner.text;
            value = JsonValue::Obj(inner.entries);
            proof {
                lemma_obj_view(value->Obj_0);
            }
        } else {
            let t1: Vec<char> = if self.trim {
                trim_chars(inner.text.as_slice())
            } else {
                inner.text
            };
            let t2: Vec<char> = if self.normalize_text {
                let c = collapse_chars(t1.as_slice());
                trim_chars(c.as_slice())
            } else {
                t1
            };
            let text_str = string_from_chars(t2.as_slice());
            if inner.entries.len() == 0 && !self.explicit_charkey {
                value = JsonValue::Str(text_str);
            } else {
                let mut e = inner.entries;
                obj_set_exec(&mut e, self.charkey.as_str(), JsonValue::Str(text_str));
                value = JsonValue::Obj(e);
                proof {
                    lemma_obj_view(value->Obj_0);
                }
            }
        }
        if crate::utils::json_is_empty(&value) {
            if !self.empty_tag.as_str().is_empty() {
                value = JsonValue::Str(self.empty_tag.clone());
            } else {
                value = JsonValue::Str(string_from_chars(whitespace.as_slice()));
            }
        }
        proof {
            assert(value@ == spec_close_value(self@, inner_v));
        }
        if stack.len() > 0 {
            let mut parent = stack.pop().unwrap();
            let ghost parent_v = node_view(parent);
            self.assign_entries(&mut parent.entries, close_tag.as_str(), value);
            stack.push(parent);
            proof {
                let rest = sv0.drop_last();
                assert(parent_v == rest.last());
                assert(stack_view(stack@) =~= rest.update(
                    rest.len() - 1,
                    SpecNode {
                        entries: spec_assign_or_push(
                            self@.explicit_array,
                            parent_v.entries,
                            if self@.lowercase_tags {
                                lower_of(tag@)
                            } else {
                                tag@
                            },
                            spec_close_value(self@, inner_v),
                        ),
                        ..parent_v
                    },
                ));
            }
            Ok(None)
        } else {
            if self.explicit_root {
                let mut e: Vec<(String, JsonValue)> = Vec::new();
                e.push((close_tag, value));
                let out = JsonValue::Obj(e);
                proof {
                    lemma_obj_view(out->Obj_0);
                    assert(out@->Obj_0 =~= seq![
                        (
                            if self@.lowercase_tags {
                                lower_of(tag@)
                            } else {
                                tag@
                            },
                            spec_close_value(self@, inner_v),
                        ),
                    ]);
                }
                Ok(Some(out))
            } else {
                Ok(Some(value))
            }
        }
    }

    // Whether a character buffer is pure whitespace.
    fn is_whitespace_chars(&self, text: &Vec<char>) -> (r: bool)
        ensures
            r == is_ws(text@),
    {
        is_ws_chars(text.as_slice())
    }

    // A self-closing element: a start processed immediately followed by
    // an end.
    fn process_empty(
        &self,
        name: &str,
        attrs: &Vec<(String, String)>,
        has_attrs: bool,
        stack: &mut Vec<Node>,
    ) -> (r: Result<Option<JsonValue>, Error>)
        ensures
            match spec_end(
                self@,
                stack_view(old(stack)@).push(spec_start_node(self@, attrs_view(attrs@), has_attrs)),
                name@,
            ) {
                Err(()) => r is Err,
                Ok(res) => {
                    &&& r is Ok
                    &&& stack_view(final (stack)@) == res.0
                    &&& match res.1 {
                        None => r->Ok_0 is None,
                        Some(v) => r->Ok_0 is Some && r->Ok_0->0@ == v,
                    }
                },
            },
    {
        self.process_start(attrs, has_attrs, stack);
        self.process_end(name, stack)
    }

    // Fold a whole event stream into a value, per the policy.
    fn build_from_events(&self, evs: &Vec<XmlEvent>) -> (r: Result<JsonValue, Error>)
        ensures
            match spec_build(self@, events_view(evs@)) {
                Ok(v) => r is Ok && r->Ok_0@ == v,
                Err(true) => {
                    &&& r is Err
                    &&& r->Err_0.kind() == ErrorKind::Unknown
                    &&& r->Err_0.details()@ == "Expected stack item at close tag."@
                },
                Err(false) => {
                    &&& r is Err
                    &&& r->Err_0.kind() == ErrorKind::Syntax
                    &&& r->Err_0.details()@ == "Unexpected end of input: unclosed element."@
                },
            },
    {
        let ghost all = events_view(evs@);
        let mut stack: Vec<Node> = Vec::new();
        let mut output = JsonValue::Null;
        let mut i: usize = 0;
        proof {
            assert(all.take(0) =~= Seq::<SpecEvent>::empty());
            assert(stack_view(stack@) =~= Seq::<SpecNode>::empty());
        }
        while i < evs.len()
            invariant
                0 <= i <= evs@.len(),
                all == events_view(evs@),
                spec_run(self@, all.take(i as int)) == Ok::<SpecParse, ()>(
                    SpecParse { stack: stack_view(stack@), output: output@ },
                ),
            decreases evs@.len() - i,
        {
            let ghost ev = all[i as int];
            proof {
                assert(evs@[i as int]@ == ev);
            }
            match &evs[i] {
                XmlEvent::Start { name: _, attrs, has_attrs } => {
                    self.process_start(attrs, *has_attrs, &mut stack);
                },
                XmlEvent::Text { data } => {
                    self.process_text(data.as_str(), &mut stack);
                },
                XmlEvent::CData { data } => {
                    self.process_cdata(data.as_str(), &mut stack);
                },
                XmlEvent::End { name } => {
                    match self.process_end(name.as_str(), &mut stack) {
                        Ok(Some(o)) => {
                            output = o;
                        },
                        Ok(None) => {},
                        Err(e) => {
                            proof {
                                assert(all.take(i + 1).drop_last() =~= all.take(i as int));
                                assert(all.take(i + 1).last() == ev);
                                lemma_spec_run_err(self@, all, i + 1);
                            }
                            return Err(e);
                        },
                    }
                },
                XmlEvent::Empty { name, attrs, has_attrs } => {
                    match self.process_empty(name.as_str(), attrs, *has_attrs, &mut stack) {
                        Ok(Some(o)) => {
                            output = o;
                        },
                        Ok(None) => {},
                        Err(_) => {
                            proof {
                                assert(all.take(i + 1).drop_last() =~= all.take(i as int));
                                assert(all.take(i + 1).last() == ev);
                                lemma_spec_run_err(self@, all, i + 1);
                            }
                            return Err(Error::new(
                                ErrorKind::Unknown,
                                "Expected stack item at close tag.",
                            ));
                        },
                    }
                },
            }
            proof {
                assert(all.take(i + 1).drop_last() =~= all.take(i as int));
                assert(all.take(i + 1).last() == ev);
            }
            i = i + 1;
        }
        proof {
            assert(all.take(evs@.len() as int) =~= all);
        }
        if stack.len() > 0 {
            return Err(
                Error::new(ErrorKind::Syntax, "Unexpected end of input: unclosed element."),
            );
        }
        Ok(output)
    }
}

proof fn lemma_spec_run_err(p: JsonPolicy, evs: Seq<SpecEvent>, i: int)
    requires
        0 <= i <= evs.len(),
        spec_run(p, evs.take(i)) is Err,
    ensures
        spec_run(p, evs) is Err,
    decreases evs.len() - i,
{
    if i < evs.len() {
        assert(evs.take(i + 1).drop_last() =~= evs.take(i));
        assert(spec_run(p, evs.take(i + 1)) is Err);
        lemma_spec_run_err(p, evs, i + 1);
    } else {
        assert(evs.take(evs.len() as int) =~= evs);
    }
}

/// Relies on `quick_xml`'s pull parser (`Reader::from_str` and
/// `read_event`): pumps the whole stream, converting each event, until
/// end of input or the first tokenizer error, which aborts with a
/// `Syntax` error naming the buffer position.
#[verifier::external_body]
fn read_events(xml: &str) -> (r: Result<Vec<XmlEvent>, Error>)
    ensures
        match r {
            Ok(evs) => xml_events(xml@) matches Ok(s) && events_view(evs@) == s,
            Err(e) => xml_events(xml@) matches Err(ed) && e.kind() == ed.0 && e.details()@ == ed.1,
        },
{
    let mut rd = quick_xml::Reader::from_str(xml);
    let mut out: Vec<XmlEvent> = Vec::new();
    loop {
        match rd.read_event() {
            Err(e) => return Err(Error::new(ErrorKind::Syntax, &format!("Error at position {}: {:?}", rd.buffer_position(), e))),
            Ok(QxEvent::Eof) => return Ok(out),
            Ok(ev) => if let Some(e2) = conv_event(ev)? { out.push(e2) },
        }
    }
}

/// Relies on the `quick_xml` event enum: element, text and CDATA events
/// are converted to plain events, and declarations, comments, processing
/// instructions and doctypes are dropped. A failed text unescape
/// (`BytesText::unescape`) is an `Unknown` error, as its error source
/// maps to that kind.
#[verifier::external_body]
fn conv_event(ev: quick_xml::events::Event<'_>) -> (r: Result<Option<XmlEvent>, Error>)
{
    match ev {
        QxEvent::Start(e) => Ok(Some(conv_start(&e, false)?)),
        QxEvent::Empty(e) => Ok(Some(conv_start(&e, true)?)),
        QxEvent::End(e) => Ok(Some(XmlEvent::End { name: conv_utf8(e.name().as_ref())? })),
        QxEvent::Text(e) => match e.unescape() {
            Ok(t) => Ok(Some(XmlEvent::Text { data: t.into_owned() })),
            Err(er) => Err(Error::new(ErrorKind::Unknown, &format!("{}", er))),
        },
        QxEvent::CData(e) => Ok(Some(XmlEvent::CData { data: conv_utf8(&e)? })),
        _ => Ok(None),
    }
}

#[verifier::external_type_specification]
#[verifier::external_body]
pub struct ExBytesStart<'a>(quick_xml::events::BytesStart<'a>);

#[verifier::external_type_specification]
#[verifier::external_body]
pub struct ExQxEvent<'a>(quick_xml::events::Event<'a>);

/// Relies on `std::str::from_utf8`: decodes a name or CDATA body, an
/// invalid byte sequence being an `Encoding` error.
#[verifier::external_body]
fn conv_utf8(b: &[u8]) -> (r: Result<String, Error>)
{
    match std::str::from_utf8(b) {
        Ok(s) => Ok(s.to_owned()),
        Err(e) => Err(Error::new(ErrorKind::Encoding, &format!("{}", e))),
    }
}

/// Relies on `BytesStart::name` of `quick_xml`: the tag name, with the
/// attributes read beside it.
#[verifier::external_body]
fn conv_start(e: &quick_xml::events::BytesStart<'_>, empty: bool) -> (r: Result<XmlEvent, Error>)
{
    let name = conv_utf8(e.name().as_ref())?;
    let (attrs, has_attrs) = conv_attrs(e)?;
    if empty {
        Ok(XmlEvent::Empty { name, attrs, has_attrs })
    } else {
        Ok(XmlEvent::Start { name, attrs, has_attrs })
    }
}

/// Relies on `BytesStart::attributes` of `quick_xml`: the well-formed
/// attributes in document order, each value unescaped by
/// `Attribute::unescape_value` (a failure there is an `Unknown` error),
/// and whether any attribute token at all was present.
#[verifier::external_body]
fn conv_attrs(e: &quick_xml::events::BytesStart<'_>) -> (r: Result<(Vec<(String, String)>, bool), Error>)
{
    let mut attrs: Vec<(String, String)> = Vec::new();
    let mut has_attrs = false;
    for a in e.attributes() {
        has_attrs = true;
        if let Ok(a) = a {
            let k = conv_utf8(a.key.as_ref())?;
            match a.unescape_value() {
                Ok(v) => attrs.push((k, v.into_owned())),
                Err(er) => return Err(Error::new(ErrorKind::Unknown, &format!("{}", er))),
            }
        }
    }
    Ok((attrs, has_attrs))
}

impl JsonBuilder {
    /// Build a structured value from markup text: the tokenizer's events
    /// folded by the policy. Fails with the tokenizer's own error, with
    /// an `Unknown` error on an end tag that found no open element, or
    /// with a `Syntax` error when the input ended with elements open.
    pub fn build_from_xml(&self, xml: &str) -> (r: Result<JsonValue, Error>)
        ensures
            match xml_events(xml@) {
                Err(ed) => r is Err && r->Err_0.kind() == ed.0 && r->Err_0.details()@ == ed.1,
                Ok(evs) => match spec_build(self@, evs) {
                    Ok(v) => r is Ok && r->Ok_0@ == v,
                    Err(true) => {
                        &&& r is Err
                        &&& r->Err_0.kind() == ErrorKind::Unknown
                        &&& r->Err_0.details()@ == "Expected stack item at close tag."@
                    },
                    Err(false) => {
                        &&& r is Err
                        &&& r->Err_0.kind() == ErrorKind::Syntax
                        &&& r->Err_0.details()@ == "Unexpected end of input: unclosed element."@
                    },
                },
            },
    {
        let evs = match read_events(xml) {
            Ok(evs) => evs,
            Err(e) => {
                return Err(e);
            },
        };
        self.build_from_events(&evs)
    }

    /// Build a compact JSON string from markup text.
    pub fn build_string_from_xml(&self, xml: &str) -> (r: Result<String, Error>)
        ensures
            match xml_events(xml@) {
                Err(ed) => r is Err && r->Err_0.kind() == ed.0 && r->Err_0.details()@ == ed.1,
                Ok(evs) => match spec_build(self@, evs) {
                    Ok(v) => r is Ok && r->Ok_0@ == crate::jsontext::json_text(v),
                    Err(true) => {
                        &&& r is Err
                        &&& r->Err_0.kind() == ErrorKind::Unknown
                        &&& r->Err_0.details()@ == "Expected stack item at close tag."@
                    },
                    Err(false) => {
                        &&& r is Err
                        &&& r->Err_0.kind() == ErrorKind::Syntax
                        &&& r->Err_0.details()@ == "Unexpected end of input: unclosed element."@
                    },
                },
            },
    {
        let object = match self.build_from_xml(xml) {
            Ok(o) => o,
            Err(e) => {
                return Err(e);
            },
        };
        let mut out: Vec<char> = Vec::new();
        crate::jsontext::push_json(&mut out, &object);
        Ok(string_from_chars(out.as_slice()))
    }

    /// Build an indented JSON string from markup text.
    pub fn build_pretty_string_from_xml(&self, xml: &str) -> (r: Result<String, Error>)
        ensures
            match xml_events(xml@) {
                Err(ed) => r is Err && r->Err_0.kind() == ed.0 && r->Err_0.details()@ == ed.1,
                Ok(evs) => match spec_build(self@, evs) {
                    Ok(v) => r is Ok && r->Ok_0@ == crate::jsontext::json_pretty(v, Seq::empty()),
                    Err(true) => {
                        &&& r is Err
                        &&& r->Err_0.kind() == ErrorKind::Unknown
                        &&& r->Err_0.details()@ == "Expected stack item at close tag."@
                    },
                    Err(false) => {
                        &&& r is Err
                        &&& r->Err_0.kind() == ErrorKind::Syntax
                        &&& r->Err_0.details()@ == "Unexpected end of input: unclosed element."@
                    },
                },
            },
    {
        let object = match self.build_from_xml(xml) {
            Ok(o) => o,
            Err(e) => {
                return Err(e);
            },
        };
        let mut out: Vec<char> = Vec::new();
        let ind: Vec<char> = Vec::new();
        crate::jsontext::push_json_pretty(&mut out, &object, ind.as_slice());
        proof {
            assert(ind@ =~= Seq::<char>::empty());
        }
        Ok(string_from_chars(out.as_slice()))
    }
}

/// Looking up a key just appended to a map that did not hold it finds
/// the new last entry.
pub proof fn lemma_obj_find_push_absent(
    entries: Seq<(Seq<char>, SpecValue)>,
    key: Seq<char>,
    v: SpecValue,
)
    requires
        obj_find(entries, key) is None,
    ensures
        obj_find(entries.push((key, v)), key) == Some(entries.len() as int),
    decreases entries.len(),
{
    let whole = entries.push((key, v));
    if entries.len() == 0 {
        assert(whole[0].0 == key);
    } else {
        assert(whole[0] == entries[0]);
        assert(entries[0].0 != key);
        lemma_obj_find_push_absent(entries.drop_first(), key, v);
        assert(whole.drop_first() =~= entries.drop_first().push((key, v)));
    }
}

/// The assign-or-push rule without explicit-array: the first write at a
/// key stores the scalar itself; a second write at the same key promotes
/// it to a two-element list holding both values in write order.
pub proof fn lemma_assign_or_push_promotes(
    entries: Seq<(Seq<char>, SpecValue)>,
    key: Seq<char>,
    v1: SpecValue,
    v2: SpecValue,
)
    requires
        obj_find(entries, key) is None,
        !(v1 is Arr),
    ensures
        ({
            let once = spec_assign_or_push(false, entries, key, v1);
            let twice = spec_assign_or_push(false, once, key, v2);
            &&& once == entries.push((key, v1))
            &&& crate::value::obj_get(once, key) == Some(v1)
            &&& twice == entries.push((key, SpecValue::Arr(seq![v1, v2])))
            &&& crate::value::obj_get(twice, key) == Some(SpecValue::Arr(seq![v1, v2]))
        }),
{
    let once = entries.push((key, v1));
    lemma_obj_find_push_absent(entries, key, v1);
    let twice = spec_assign_or_push(false, once, key, v2);
    assert(seq![v1].push(v2) =~= seq![v1, v2]);
    assert(twice =~= entries.push((key, SpecValue::Arr(seq![v1, v2]))));
    lemma_obj_find_push_absent(entries, key, SpecValue::Arr(seq![v1, v2]));
}

proof fn lemma_attr_map_distinct(
    m: Seq<(Seq<char>, SpecValue)>,
    attrs: Seq<(Seq<char>, Seq<char>)>,
)
    requires
        forall|i: int, j: int| 0 <= i < j < attrs.len() ==> attrs[i].0 != attrs[j].0,
        forall|i: int| 0 <= i < attrs.len() ==> obj_find(m, #[trigger] attrs[i].0) is None,
    ensures
        spec_attr_map(m, attrs) == m + Seq::new(
            attrs.len(),
            |i: int| (attrs[i].0, SpecValue::Str(attrs[i].1)),
        ),
    decreases attrs.len(),
{
    if attrs.len() == 0 {
        assert(m + Seq::new(0nat, |i: int| (attrs[i].0, SpecValue::Str(attrs[i].1))) =~= m);
    } else {
        let m2 = obj_set(m, attrs[0].0, SpecValue::Str(attrs[0].1));
        assert(m2 == m.push((attrs[0].0, SpecValue::Str(attrs[0].1))));
        let rest = attrs.drop_first();
        assert forall|i: int| 0 <= i < rest.len() implies obj_find(
            m2,
            #[trigger] rest[i].0,
        ) is None by {
            assert(rest[i] == attrs[i + 1]);
            assert(attrs[i + 1].0 != attrs[0].0);
            lemma_obj_find_absent_push(m, rest[i].0, (attrs[0].0, SpecValue::Str(attrs[0].1)));
        }
        assert(forall|i: int, j: int| 0 <= i < j < rest.len() ==> rest[i].0 != rest[j].0) by {
            assert(forall|i: int| 0 <= i < rest.len() ==> rest[i] == attrs[i + 1]);
        }
        lemma_attr_map_distinct(m2, rest);
        assert(m2 + Seq::new(rest.len(), |i: int| (rest[i].0, SpecValue::Str(rest[i].1))) =~= m
            + Seq::new(attrs.len(), |i: int| (attrs[i].0, SpecValue::Str(attrs[i].1))));
    }
}

proof fn lemma_obj_find_absent_push(
    m: Seq<(Seq<char>, SpecValue)>,
    key: Seq<char>,
    e: (Seq<char>, SpecValue),
)
    requires
        obj_find(m, key) is None,
        e.0 != key,
    ensures
        obj_find(m.push(e), key) is None,
    decreases m.len(),
{
    let whole = m.push(e);
    assert(obj_find(Seq::<(Seq<char>, SpecValue)>::empty(), key) is None);
    if m.len() == 0 {
        assert(whole[0] == e);
        assert(whole.drop_first() =~= Seq::<(Seq<char>, SpecValue)>::empty());
        assert(obj_find(whole.drop_first(), key) is None);
    } else {
        assert(whole[0] == m[0]);
        lemma_obj_find_absent_push(m.drop_first(), key, e);
        assert(whole.drop_first() =~= m.drop_first().push(e));
    }
}

/// Decoding one self-closing element with attributes of distinct names:
/// the result is a single-entry map under the element's tag name — the
/// name folded by `lower_of` exactly when lowercase-tags is set — whose
/// value is a map holding only the attr-key entry; the attribute names
/// are stored exactly as given, never folded.
pub proof fn lemma_empty_element_decode(
    p: JsonPolicy,
    name: Seq<char>,
    attrs: Seq<(Seq<char>, Seq<char>)>,
)
    requires
        p.explicit_root,
        !p.ignore_attrs,
        !p.merge_attrs,
        forall|i: int, j: int| 0 <= i < j < attrs.len() ==> attrs[i].0 != attrs[j].0,
    ensures
        spec_build(p, seq![SpecEvent::Empty { name, attrs, has_attrs: true }]) == Ok::<
            SpecValue,
            bool,
        >(
            SpecValue::Obj(
                seq![
                    (
                        if p.lowercase_tags {
                            lower_of(name)
                        } else {
                            name
                        },
                        SpecValue::Obj(
                            seq![
                                (
                                    p.attrkey,
                                    SpecValue::Obj(
                                        Seq::new(
                                            attrs.len(),
                                            |i: int| (attrs[i].0, SpecValue::Str(attrs[i].1)),
                                        ),
                                    ),
                                ),
                            ],
                        ),
                    ),
                ],
            ),
        ),
{
    let evs = seq![SpecEvent::Empty { name, attrs, has_attrs: true }];
    assert(evs.drop_last() =~= Seq::<SpecEvent>::empty());
    assert(evs.last() == SpecEvent::Empty { name, attrs, has_attrs: true });
    lemma_attr_map_distinct(Seq::empty(), attrs);
    let am = Seq::new(attrs.len(), |i: int| (attrs[i].0, SpecValue::Str(attrs[i].1)));
    assert(Seq::<(Seq<char>, SpecValue)>::empty() + am =~= am);
    let node = spec_start_node(p, attrs, true);
    assert(node.entries == seq![(p.attrkey, SpecValue::Obj(am))]);
    assert(is_ws(node.text));
    let v = spec_close_value(p, node);
    assert(!spec_is_empty(SpecValue::Obj(node.entries)));
    assert(v == SpecValue::Obj(node.entries));
    let st0 = SpecParse { stack: Seq::empty(), output: SpecValue::Null };
    let st1 = SpecParse { stack: st0.stack.push(node), output: st0.output };
    assert(st1.stack.last() == node);
    assert(st1.stack.drop_last() =~= Seq::<SpecNode>::empty());
    assert(spec_run(p, Seq::<SpecEvent>::empty()) == Ok::<SpecParse, ()>(st0));
    assert(spec_run(p, evs) == spec_step(p, st0, evs.last()));
}

/// Whether a value is a non-empty, well-shaped list.
pub open spec fn strong_val(p: JsonPolicy, v: SpecValue) -> bool {
    &&& v is Arr
    &&& v->Arr_0.len() > 0
    &&& arrays_everywhere(p, v)
}

/// The shape that explicit-array guarantees: every entry of a finished
/// map whose key is neither the attr-key nor the char-key holds a
/// non-empty list, and the shape holds again inside every list item.
pub open spec fn arrays_everywhere(p: JsonPolicy, v: SpecValue) -> bool
    decreases v, 1int, 0int,
{
    match v {
        SpecValue::Obj(entries) => obj_shape(p, v, 0),
        SpecValue::Arr(items) => arr_shape(p, v, 0),
        _ => true,
    }
}

/// The map half of the shape, one entry at a time.
pub open spec fn obj_shape(p: JsonPolicy, v: SpecValue, i: int) -> bool
    decreases v, 0int, (if v is Obj { v->Obj_0.len() - i } else { 0 }),
{
    if v is Obj {
        let entries = v->Obj_0;
        if 0 <= i < entries.len() {
            let ok = entries[i].0 == p.attrkey || entries[i].0 == p.charkey || (entries[i].1 is Arr
                && entries[i].1->Arr_0.len() > 0 && arrays_everywhere(p, entries[i].1));
            ok && obj_shape(p, v, i + 1)
        } else {
            true
        }
    } else {
        true
    }
}

/// The list half of the shape, one item at a time.
pub open spec fn arr_shape(p: JsonPolicy, v: SpecValue, i: int) -> bool
    decreases v, 0int, (if v is Arr { v->Arr_0.len() - i } else { 0 }),
{
    if v is Arr {
        let items = v->Arr_0;
        if 0 <= i < items.len() {
            arrays_everywhere(p, items[i]) && arr_shape(p, v, i + 1)
        } else {
            true
        }
    } else {
        true
    }
}

/// Whether one finished map entry meets the shape.
pub open spec fn entry_ok(p: JsonPolicy, e: (Seq<char>, SpecValue)) -> bool {
    e.0 == p.attrkey || e.0 == p.charkey || strong_val(p, e.1)
}

proof fn lemma_obj_shape_iff(p: JsonPolicy, v: SpecValue, i: int)
    requires
        v is Obj,
        0 <= i,
    ensures
        obj_shape(p, v, i) <==> (forall|k: int|
            i <= k < v->Obj_0.len() ==> entry_ok(p, #[trigger] v->Obj_0[k])),
    decreases v->Obj_0.len() - i,
{
    if i < v->Obj_0.len() {
        lemma_obj_shape_iff(p, v, i + 1);
    }
}

proof fn lemma_arr_shape_iff(p: JsonPolicy, v: SpecValue, i: int)
    requires
        v is Arr,
        0 <= i,
    ensures
        arr_shape(p, v, i) <==> (forall|k: int|
            i <= k < v->Arr_0.len() ==> arrays_everywhere(p, #[trigger] v->Arr_0[k])),
    decreases v->Arr_0.len() - i,
{
    if i < v->Arr_0.len() {
        lemma_arr_shape_iff(p, v, i + 1);
    }
}

// While an element is open, every entry of its map but the attr-key one
// already holds a non-empty, well-shaped list.
spec fn building_ok(p: JsonPolicy, entries: Seq<(Seq<char>, SpecValue)>) -> bool {
    forall|i: int|
        0 <= i < entries.len() ==> ((#[trigger] entries[i]).0 == p.attrkey || strong_val(
            p,
            entries[i].1,
        ))
}

// In a map built by merged attributes alone, every entry holds a
// non-empty, well-shaped list, whatever its key.
spec fn building_strong(p: JsonPolicy, entries: Seq<(Seq<char>, SpecValue)>) -> bool {
    forall|i: int| 0 <= i < entries.len() ==> strong_val(p, (#[trigger] entries[i]).1)
}

// The shape of the whole parse stack.
spec fn stack_ok(p: JsonPolicy, stack: Seq<SpecNode>) -> bool {
    forall|i: int| 0 <= i < stack.len() ==> building_ok(p, (#[trigger] stack[i]).entries)
}

// The shape of a produced output.
spec fn output_ok(p: JsonPolicy, v: SpecValue) -> bool {
    if p.explicit_root {
        v is Obj ==> forall|i: int|
            0 <= i < v->Obj_0.len() ==> arrays_everywhere(p, (#[trigger] v->Obj_0[i]).1)
    } else {
        arrays_everywhere(p, v)
    }
}

/// Whether no end tag or self-closing element of the stream folds to the
/// attr-key name; a tag name that collides with the attr-key is the one
/// case the explicit-array shape does not survive.
pub open spec fn no_attrkey_tags(p: JsonPolicy, evs: Seq<SpecEvent>) -> bool {
    forall|k: int|
        0 <= k < evs.len() ==> match #[trigger] evs[k] {
            SpecEvent::End { name } => (if p.lowercase_tags {
                lower_of(name)
            } else {
                name
            }) != p.attrkey,
            SpecEvent::Empty { name, .. } => (if p.lowercase_tags {
                lower_of(name)
            } else {
                name
            }) != p.attrkey,
            _ => true,
        }
}

proof fn lemma_arrays_everywhere_obj(p: JsonPolicy, entries: Seq<(Seq<char>, SpecValue)>)
    ensures
        arrays_everywhere(p, SpecValue::Obj(entries)) <==> (forall|k: int|
            0 <= k < entries.len() ==> entry_ok(p, #[trigger] entries[k])),
{
    lemma_obj_shape_iff(p, SpecValue::Obj(entries), 0);
}

proof fn lemma_arrays_everywhere_arr(p: JsonPolicy, items: Seq<SpecValue>)
    ensures
        arrays_everywhere(p, SpecValue::Arr(items)) <==> (forall|k: int|
            0 <= k < items.len() ==> arrays_everywhere(p, #[trigger] items[k])),
{
    lemma_arr_shape_iff(p, SpecValue::Arr(items), 0);
}

proof fn lemma_aop_shape(
    p: JsonPolicy,
    entries: Seq<(Seq<char>, SpecValue)>,
    key: Seq<char>,
    v: SpecValue,
)
    requires
        arrays_everywhere(p, v),
        match obj_find(entries, key) {
            None => true,
            Some(i) => strong_val(p, entries[i].1),
        },
    ensures
        ({
            let after = spec_assign_or_push(true, entries, key, v);
            &&& after.len() >= 1
            &&& after.len() <= entries.len() + 1
            &&& forall|t: int|
                0 <= t < after.len() ==> (t < entries.len() && (#[trigger] after[t])
                    == entries[t]) || (after[t].0 == key && strong_val(p, after[t].1))
        }),
{
    crate::value::lemma_obj_find_spec(entries, key);
    match obj_find(entries, key) {
        None => {
            let nv = SpecValue::Arr(seq![v]);
            lemma_arrays_everywhere_arr(p, seq![v]);
            assert(seq![v][0] == v);
            assert(strong_val(p, nv));
            let after = entries.push((key, nv));
            assert(forall|t: int|
                0 <= t < entries.len() ==> #[trigger] after[t] == entries[t]);
            assert(after[entries.len() as int] == (key, nv));
        },
        Some(i) => {
            let cur = entries[i].1;
            let arr = cur->Arr_0;
            lemma_arrays_everywhere_arr(p, arr);
            lemma_arrays_everywhere_arr(p, arr.push(v));
            assert(forall|j: int|
                0 <= j < arr.len() ==> #[trigger] arr.push(v)[j] == arr[j]);
            assert(arr.push(v)[arr.len() as int] == v);
            let nv = SpecValue::Arr(arr.push(v));
            assert(strong_val(p, nv));
            let after = entries.update(i, (key, nv));
            assert(forall|t: int|
                0 <= t < after.len() && t != i ==> #[trigger] after[t] == entries[t]);
            assert(after[i] == (key, nv));
        },
    }
}

proof fn lemma_aop_strong(
    p: JsonPolicy,
    entries: Seq<(Seq<char>, SpecValue)>,
    key: Seq<char>,
    v: SpecValue,
)
    requires
        building_strong(p, entries),
        arrays_everywhere(p, v),
    ensures
        building_strong(p, spec_assign_or_push(true, entries, key, v)),
{
    crate::value::lemma_obj_find_spec(entries, key);
    lemma_aop_shape(p, entries, key, v);
    let after = spec_assign_or_push(true, entries, key, v);
    assert forall|t: int| 0 <= t < after.len() implies strong_val(
        p,
        (#[trigger] after[t]).1,
    ) by {
        if t < entries.len() && after[t] == entries[t] {
            assert(strong_val(p, entries[t].1));
        }
    }
}

proof fn lemma_aop_building(
    p: JsonPolicy,
    entries: Seq<(Seq<char>, SpecValue)>,
    key: Seq<char>,
    v: SpecValue,
)
    requires
        building_ok(p, entries),
        arrays_everywhere(p, v),
        key != p.attrkey,
    ensures
        building_ok(p, spec_assign_or_push(true, entries, key, v)),
{
    crate::value::lemma_obj_find_spec(entries, key);
    lemma_aop_shape(p, entries, key, v);
    let after = spec_assign_or_push(true, entries, key, v);
    assert forall|t: int| 0 <= t < after.len() implies ((#[trigger] after[t]).0 == p.attrkey
        || strong_val(p, after[t].1)) by {
        if t < entries.len() && after[t] == entries[t] {
            assert(entries[t].0 == p.attrkey || strong_val(p, entries[t].1));
        }
    }
}

proof fn lemma_merge_attrs_strong(
    p: JsonPolicy,
    entries: Seq<(Seq<char>, SpecValue)>,
    attrs: Seq<(Seq<char>, Seq<char>)>,
)
    requires
        building_strong(p, entries),
    ensures
        building_strong(p, spec_merge_attrs(true, entries, attrs)),
    decreases attrs.len(),
{
    if attrs.len() > 0 {
        lemma_aop_strong(p, entries, attrs[0].0, SpecValue::Str(attrs[0].1));
        lemma_merge_attrs_strong(
            p,
            spec_assign_or_push(true, entries, attrs[0].0, SpecValue::Str(attrs[0].1)),
            attrs.drop_first(),
        );
    }
}

proof fn lemma_start_node_ok(p: JsonPolicy, attrs: Seq<(Seq<char>, Seq<char>)>, has_attrs: bool)
    requires
        p.explicit_array,
    ensures
        building_ok(p, spec_start_node(p, attrs, has_attrs).entries),
{
    if !p.ignore_attrs && p.merge_attrs {
        assert(building_strong(p, Seq::empty()));
        lemma_merge_attrs_strong(p, Seq::empty(), attrs);
    }
}

proof fn lemma_close_ok(p: JsonPolicy, n: SpecNode)
    requires
        building_ok(p, n.entries),
    ensures
        arrays_everywhere(p, spec_close_value(p, n)),
{
    let stash = is_ws(n.text) && !n.literal;
    lemma_arrays_everywhere_obj(p, n.entries);
    if stash {
    } else {
        let t1 = if p.trim {
            trim_spec(n.text)
        } else {
            n.text
        };
        let t2 = if p.normalize_text {
            trim_spec(collapse_ws(t1))
        } else {
            t1
        };
        if n.entries.len() == 0 && !p.explicit_charkey {
        } else {
            let e2 = obj_set(n.entries, p.charkey, SpecValue::Str(t2));
            crate::value::lemma_obj_find_spec(n.entries, p.charkey);
            lemma_arrays_everywhere_obj(p, e2);
            assert forall|i: int| 0 <= i < e2.len() implies entry_ok(p, #[trigger] e2[i]) by {
                match obj_find(n.entries, p.charkey) {
                    None => {
                        if i < n.entries.len() {
                            assert(e2[i] == n.entries[i]);
                        } else {
                            assert(e2[i] == (p.charkey, SpecValue::Str(t2)));
                        }
                    },
                    Some(t) => {
                        if i != t {
                            assert(e2[i] == n.entries[i]);
                        } else {
                            assert(e2[i] == (p.charkey, SpecValue::Str(t2)));
                        }
                    },
                }
            }
        }
    }
}

proof fn lemma_add_text_shape(p: JsonPolicy, stack: Seq<SpecNode>, data: Seq<char>)
    requires
        stack_ok(p, stack),
    ensures
        stack_ok(p, spec_add_text(p, stack, data)),
{
    if stack.len() > 0 {
        let s2 = spec_add_text(p, stack, data);
        assert forall|i: int| 0 <= i < s2.len() implies building_ok(
            p,
            (#[trigger] s2[i]).entries,
        ) by {
            if i < stack.len() - 1 {
                assert(s2[i] == stack[i]);
            } else {
                assert(s2[i].entries == stack.last().entries);
            }
        }
    }
}

proof fn lemma_end_shape(p: JsonPolicy, st: SpecParse, name: Seq<char>)
    requires
        p.explicit_array,
        stack_ok(p, st.stack),
        output_ok(p, st.output),
        (if p.lowercase_tags {
            lower_of(name)
        } else {
            name
        }) != p.attrkey,
    ensures
        match spec_process_end(p, st, name) {
            Ok(st2) => stack_ok(p, st2.stack) && output_ok(p, st2.output),
            Err(()) => true,
        },
{
    if st.stack.len() > 0 {
        let close_tag = if p.lowercase_tags {
            lower_of(name)
        } else {
            name
        };
        let inner = st.stack.last();
        assert(building_ok(p, inner.entries));
        lemma_close_ok(p, inner);
        let v = spec_close_value(p, inner);
        let rest = st.stack.drop_last();
        assert(forall|i: int| 0 <= i < rest.len() ==> rest[i] == st.stack[i]);
        if rest.len() > 0 {
            let parent = rest.last();
            assert(building_ok(p, parent.entries));
            lemma_aop_building(p, parent.entries, close_tag, v);
            let parent2 = SpecNode {
                entries: spec_assign_or_push(true, parent.entries, close_tag, v),
                ..parent
            };
            let stk2 = rest.update(rest.len() - 1, parent2);
            assert forall|i: int| 0 <= i < stk2.len() implies building_ok(
                p,
                (#[trigger] stk2[i]).entries,
            ) by {
                if i < rest.len() - 1 {
                    assert(stk2[i] == rest[i]);
                }
            }
        } else {
            if p.explicit_root {
                let out = SpecValue::Obj(seq![(close_tag, v)]);
                assert(forall|i: int|
                    0 <= i < out->Obj_0.len() ==> (#[trigger] out->Obj_0[i]).1 == v);
            }
        }
    }
}

proof fn lemma_run_shape(p: JsonPolicy, evs: Seq<SpecEvent>)
    requires
        p.explicit_array,
        no_attrkey_tags(p, evs),
    ensures
        match spec_run(p, evs) {
            Ok(st) => stack_ok(p, st.stack) && output_ok(p, st.output),
            Err(()) => true,
        },
    decreases evs.len(),
{
    if evs.len() == 0 {
    } else {
        let prefix = evs.drop_last();
        assert(no_attrkey_tags(p, prefix)) by {
            assert(forall|k: int| 0 <= k < prefix.len() ==> prefix[k] == evs[k]);
        }
        lemma_run_shape(p, prefix);
        match spec_run(p, prefix) {
            Err(()) => {},
            Ok(st) => {
                let ev = evs.last();
                assert(ev == evs[evs.len() - 1]);
                match ev {
                    SpecEvent::Start { name, attrs, has_attrs } => {
                        lemma_start_node_ok(p, attrs, has_attrs);
                        let stk2 = st.stack.push(spec_start_node(p, attrs, has_attrs));
                        assert forall|i: int| 0 <= i < stk2.len() implies building_ok(
                            p,
                            (#[trigger] stk2[i]).entries,
                        ) by {
                            if i < st.stack.len() {
                                assert(stk2[i] == st.stack[i]);
                            }
                        }
                    },
                    SpecEvent::Text { data } => {
                        lemma_add_text_shape(p, st.stack, data);
                    },
                    SpecEvent::CData { data } => {
                        lemma_add_text_shape(p, st.stack, data);
                        let s1 = spec_add_text(p, st.stack, data);
                        if s1.len() > 0 {
                            let s2 = s1.update(
                                s1.len() - 1,
                                SpecNode { literal: true, ..s1.last() },
                            );
                            assert forall|i: int| 0 <= i < s2.len() implies building_ok(
                                p,
                                (#[trigger] s2[i]).entries,
                            ) by {
                                if i < s1.len() - 1 {
                                    assert(s2[i] == s1[i]);
                                } else {
                                    assert(s2[i].entries == s1.last().entries);
                                }
                            }
                        }
                    },
                    SpecEvent::End { name } => {
                        lemma_end_shape(p, st, name);
                    },
                    SpecEvent::Empty { name, attrs, has_attrs } => {
                        lemma_start_node_ok(p, attrs, has_attrs);
                        let stk2 = st.stack.push(spec_start_node(p, attrs, has_attrs));
                        assert forall|i: int| 0 <= i < stk2.len() implies building_ok(
                            p,
                            (#[trigger] stk2[i]).entries,
                        ) by {
                            if i < st.stack.len() {
                                assert(stk2[i] == st.stack[i]);
                            }
                        }
                        lemma_end_shape(p, SpecParse { stack: stk2, output: st.output }, name);
                    },
                }
            },
        }
    }
}

pub proof fn lemma_explicit_array_shape(p: JsonPolicy, evs: Seq<SpecEvent>)
    requires
        p.explicit_array,
        no_attrkey_tags(p, evs),
    ensures
        match spec_build(p, evs) {
            Ok(v) => if p.explicit_root {
                v is Obj ==> forall|i: int|
                    0 <= i < v->Obj_0.len() ==> arrays_everywhere(p, (#[trigger] v->Obj_0[i]).1)
            } else {
                arrays_everywhere(p, v)
            },
            Err(_) => true,
        },
{
    lemma_run_shape(p, evs);
}

} // verus!
