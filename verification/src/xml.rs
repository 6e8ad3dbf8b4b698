//! The value-to-markup transcoder: a recursive traversal that renders a
//! structured value as XML text, honoring the declaration, the root
//! wrapping rule and optional indentation.

use vstd::prelude::*;

use crate::error::{Error, ErrorKind};
use crate::jsontext::spec_to_string_raw;
use crate::json::attrs_view;
use crate::text::{chars_vec, escape_into, escape_text, string_from_chars};
use crate::value::{
    entries_view, lemma_arr_view, lemma_obj_view, obj_find, obj_get, spec_is_empty, str_eq,
    JsonValue, SpecValue,
};

verus! {

broadcast use vstd::string::group_string_axioms;

/// XML declaration encoding. For now only UTF-8 is supported.
#[derive(Clone, Copy)]
pub enum Encoding {
    /// UTF-8.
    UTF8,
}

impl Encoding {
    /// Serialize the encoding as its declaration label.
    pub fn to_string(&self) -> (r: &'static str)
        ensures
            r@ == "UTF-8"@,
    {
        match *self {
            Encoding::UTF8 => "UTF-8",
        }
    }

    /// The encoding named by a label.
    pub fn try_from(s: &str) -> (r: Result<Encoding, Error>)
        ensures
            (s@ == "UTF-8"@ || s@ == "UTF8"@) <==> r is Ok,
    {
        if str_eq(s, "UTF-8") || str_eq(s, "UTF8") {
            Ok(Encoding::UTF8)
        } else {
            Err(Error::new(ErrorKind::Encoding, "Cannot convert to Encoding."))
        }
    }
}

/// XML declaration version.
#[derive(Clone, Copy)]
pub enum Version {
    /// 1.0
    XML10,
    /// 1.1
    XML11,
}

/// The declaration text of a version.
pub open spec fn spec_version_str(v: Version) -> Seq<char> {
    match v {
        Version::XML10 => "1.0"@,
        Version::XML11 => "1.1"@,
    }
}

impl Version {
    /// Serialize the version as its declaration label.
    pub fn to_string(&self) -> (r: &'static str)
        ensures
            r@ == spec_version_str(*self),
    {
        match *self {
            Version::XML10 => "1.0",
            Version::XML11 => "1.1",
        }
    }

    /// The version named by a label.
    pub fn try_from(s: &str) -> (r: Result<Version, Error>)
        ensures
            (s@ == "1.0"@ || s@ == "1.1"@) <==> r is Ok,
            s@ == "1.0"@ ==> r == Ok::<Version, Error>(Version::XML10),
            s@ == "1.1"@ ==> r == Ok::<Version, Error>(Version::XML11),
    {
        proof {
            reveal_strlit("1.0");
            reveal_strlit("1.1");
            assert("1.0"@.len() == 3 && "1.1"@.len() == 3);
            assert("1.0"@[2] == '0' && "1.1"@[2] == '1');
        }
        if str_eq(s, "1.0") {
            Ok(Version::XML10)
        } else if str_eq(s, "1.1") {
            Ok(Version::XML11)
        } else {
            Err(Error::new(ErrorKind::Unknown, "Cannot convert to Version."))
        }
    }
}

/// The model of a declaration.
pub struct DeclView {
    pub version: Version,
    pub encoding: Option<Encoding>,
    pub standalone: Option<bool>,
}

/// XML declaration: version, optional encoding label, optional
/// standalone flag.
#[derive(Clone, Copy)]
pub struct Declaration {
    version: Version,
    encoding: Option<Encoding>,
    standalone: Option<bool>,
}

impl View for Declaration {
    type V = DeclView;

    closed spec fn view(&self) -> DeclView {
        DeclView { version: self.version, encoding: self.encoding, standalone: self.standalone }
    }
}

impl Declaration {
    /// Initialize a declaration.
    pub fn new(version: Version, encoding: Option<Encoding>, standalone: Option<bool>) -> (r:
        Declaration)
        ensures
            r@ == (DeclView { version, encoding, standalone }),
    {
        Declaration { version, encoding, standalone }
    }
}

impl Default for Declaration {
    /// Version 1.0, no encoding label, no standalone flag.
    fn default() -> (r: Declaration)
        ensures
            r@ == (DeclView { version: Version::XML10, encoding: None, standalone: None }),
    {
        Declaration { version: Version::XML10, encoding: None, standalone: None }
    }
}

/// The text of the declaration: version, then the optional encoding and
/// standalone attributes.
pub open spec fn spec_decl_text(d: DeclView) -> Seq<char> {
    "<?xml version=\""@ + spec_version_str(d.version) + "\""@ + (match d.encoding {
        Some(_) => " encoding=\"UTF-8\""@,
        None => Seq::<char>::empty(),
    }) + (match d.standalone {
        Some(true) => " standalone=\"yes\""@,
        Some(false) => " standalone=\"no\""@,
        None => Seq::<char>::empty(),
    }) + "?>"@
}

/// XML indentation rendering options: the fill character and how many of
/// it stand for one nesting level.
#[derive(Clone, Copy, Debug)]
pub struct Indentation {
    indent_char: u8,
    indent_size: usize,
}

/// The model of the indentation options.
pub struct IndentView {
    pub indent_char: u8,
    pub indent_size: nat,
}

impl View for Indentation {
    type V = IndentView;

    closed spec fn view(&self) -> IndentView {
        IndentView { indent_char: self.indent_char, indent_size: self.indent_size as nat }
    }
}

impl Indentation {
    /// Initialize an indentation option: the output gets line breaks and
    /// this many fill characters per nesting level.
    pub fn new(indent_char: u8, indent_size: usize) -> (r: Indentation)
        ensures
            r@ == (IndentView { indent_char, indent_size: indent_size as nat }),
    {
        Indentation { indent_char, indent_size }
    }
}

impl Default for Indentation {
    /// Two spaces per nesting level.
    fn default() -> (r: Indentation)
        ensures
            r@ == (IndentView { indent_char: 32u8, indent_size: 2nat }),
    {
        Indentation { indent_char: 32u8, indent_size: 2 }
    }
}

/// The immutable encode policy: the named keys, the root name, the
/// declaration and the indentation options.
pub struct XmlPolicy {
    pub attrkey: Seq<char>,
    pub charkey: Seq<char>,
    pub root_name: Seq<char>,
    pub decl: DeclView,
    pub indent: Option<IndentView>,
}

/// The writer state: the text so far, whether the next wrapped write
/// breaks the line first, the current indentation, and whether a
/// non-ASCII fill character has been written (which the final encoding
/// step rejects).
pub struct WState {
    pub out: Seq<char>,
    pub pending: bool,
    pub ind: Seq<char>,
    pub bad: bool,
}

/// Whether indented rendering is on.
pub open spec fn indent_on(p: XmlPolicy) -> bool {
    p.indent is Some
}

/// One nesting level's worth of fill characters.
pub open spec fn indent_unit(p: XmlPolicy) -> Seq<char> {
    match p.indent {
        None => Seq::empty(),
        Some(iv) => Seq::new(iv.indent_size, |i: int| iv.indent_char as char),
    }
}

/// Whether the fill character lies outside ASCII, which cannot be
/// written as a single byte of valid output.
pub open spec fn indent_nonascii(p: XmlPolicy) -> bool {
    match p.indent {
        None => false,
        Some(iv) => iv.indent_char >= 128,
    }
}

/// A wrapped write: a pending line break and the current indentation go
/// first when indented rendering is on, then the body; the given flag
/// says whether the write after this one breaks the line.
pub open spec fn w_wrapped(p: XmlPolicy, st: WState, body: Seq<char>, nl_after: bool) -> WState {
    let pre: Seq<char> = if indent_on(p) && st.pending {
        seq!['\n'] + st.ind
    } else {
        Seq::empty()
    };
    WState {
        out: st.out + pre + body,
        pending: nl_after,
        ind: st.ind,
        bad: st.bad || (indent_on(p) && st.pending && st.ind.len() > 0 && indent_nonascii(p)),
    }
}

/// The attribute text of a start tag: one ` key="value"` per attribute.
pub open spec fn attrs_text(attrs: Seq<(Seq<char>, Seq<char>)>) -> Seq<char>
    decreases attrs.len(),
{
    if attrs.len() == 0 {
        Seq::empty()
    } else {
        seq![' '] + attrs[0].0 + seq!['=', '"'] + attrs[0].1 + seq!['"'] + attrs_text(
            attrs.drop_first(),
        )
    }
}

/// A start tag written to the output; a non-self-closing tag deepens the
/// indentation for what follows.
pub open spec fn w_start(
    p: XmlPolicy,
    st: WState,
    key: Seq<char>,
    attrs: Seq<(Seq<char>, Seq<char>)>,
    selfclosing: bool,
) -> WState {
    let body = seq!['<'] + key + attrs_text(attrs) + (if selfclosing {
        seq!['/', '>']
    } else {
        seq!['>']
    });
    let st1 = w_wrapped(p, st, body, true);
    if selfclosing {
        st1
    } else {
        WState { ind: st1.ind + indent_unit(p), ..st1 }
    }
}

/// An end tag written to the output, after the indentation returns to
/// the enclosing level.
pub open spec fn w_end(p: XmlPolicy, st: WState, key: Seq<char>) -> WState {
    let unit = indent_unit(p);
    let ind2: Seq<char> = if st.ind.len() >= unit.len() {
        st.ind.take(st.ind.len() - unit.len())
    } else {
        Seq::empty()
    };
    w_wrapped(p, WState { ind: ind2, ..st }, seq!['<', '/'] + key + seq!['>'], true)
}

/// Character data written to the output, escaped, with no line break
/// before it; the write after text stays on the same line.
pub open spec fn w_text(p: XmlPolicy, st: WState, s: Seq<char>) -> WState {
    WState { out: st.out + escape_text(s), pending: false, ..st }
}

/// A raw write: the characters as they are, no line break bookkeeping.
pub open spec fn w_raw(st: WState, s: Seq<char>) -> WState {
    WState { out: st.out + s, ..st }
}

/// An explicit line break and indentation.
pub open spec fn w_indent(p: XmlPolicy, st: WState) -> WState {
    WState {
        out: st.out + seq!['\n'] + st.ind,
        bad: st.bad || (st.ind.len() > 0 && indent_nonascii(p)),
        ..st
    }
}

/// The declaration written to the output.
pub open spec fn w_decl(p: XmlPolicy, st: WState) -> WState {
    w_wrapped(p, st, spec_decl_text(p.decl), true)
}

/// The attributes carried by the entries of an attribute map: every
/// value must be a text scalar.
pub open spec fn attrs_of_entries(entries: Seq<(Seq<char>, SpecValue)>, i: int) -> Result<
    Seq<(Seq<char>, Seq<char>)>,
    (),
>
    decreases entries.len() - i,
{
    if 0 <= i < entries.len() {
        match entries[i].1 {
            SpecValue::Str(s) => match attrs_of_entries(entries, i + 1) {
                Ok(rest) => Ok(seq![(entries[i].0, s)] + rest),
                Err(()) => Err(()),
            },
            _ => Err(()),
        }
    } else {
        Ok(Seq::empty())
    }
}

/// The attributes of a tag: read from the attr-key entry of the single
/// wrapped value when the node is a one-element list, from the node's
/// own attr-key entry when it is a map, and empty otherwise. A non-text
/// attribute value is an error.
pub open spec fn spec_tag_attributes(p: XmlPolicy, node: SpecValue) -> Result<
    Seq<(Seq<char>, Seq<char>)>,
    (),
>
    decreases node,
{
    match node {
        SpecValue::Arr(items) => {
            if items.len() == 1 {
                spec_tag_attributes(p, items[0])
            } else {
                Ok(Seq::empty())
            }
        },
        SpecValue::Obj(entries) => {
            match obj_get(entries, p.attrkey) {
                Some(av) => match av {
                    SpecValue::Obj(m) => attrs_of_entries(m, 0),
                    _ => Ok(Seq::empty()),
                },
                None => Ok(Seq::empty()),
            }
        },
        _ => Ok(Seq::empty()),
    }
}

/// Whether an element renders self-closing: recursively, it holds no
/// content other than attribute entries and empty values.
pub open spec fn spec_is_empty_tag(p: XmlPolicy, node: SpecValue) -> bool
    decreases node,
{
    if node is Arr && node->Arr_0.len() > 0 {
        let child = node->Arr_0[0];
        (child is Str && spec_is_empty(child)) || spec_is_empty_tag(p, child)
    } else if node is Obj {
        forall|i: int|
            0 <= i < node->Obj_0.len() ==> node->Obj_0[i].0 == p.attrkey || spec_is_empty(
                #[trigger] node->Obj_0[i].1,
            )
    } else {
        spec_is_empty(node)
    }
}

/// Whether a map holds no keys besides the char-key and the attr-key.
pub open spec fn spec_is_leaf(p: XmlPolicy, entries: Seq<(Seq<char>, SpecValue)>) -> bool {
    forall|i: int|
        0 <= i < entries.len() ==> #[trigger] entries[i].0 == p.charkey || entries[i].0 == p.attrkey
}

/// A start tag for a node: its attributes and the self-closing decision.
pub open spec fn w_start_tag(p: XmlPolicy, st: WState, key: Seq<char>, node: SpecValue) -> Result<
    WState,
    (),
> {
    match spec_tag_attributes(p, node) {
        Err(()) => Err(()),
        Ok(attrs) => Ok(w_start(p, st, key, attrs, spec_is_empty_tag(p, node))),
    }
}

/// An end tag for a node; a self-closing element gets none.
pub open spec fn w_end_tag(p: XmlPolicy, st: WState, key: Seq<char>, node: SpecValue) -> WState {
    if spec_is_empty_tag(p, node) {
        st
    } else {
        w_end(p, st, key)
    }
}

/// The traversal of one node: maps walk their entries, lists wrap each
/// item in the carried key's tag, scalars are written as text.
pub open spec fn spec_traverse(
    p: XmlPolicy,
    node: SpecValue,
    parent_key: Option<Seq<char>>,
    st: WState,
) -> Result<WState, ()>
    decreases node, 1int, 0int,
{
    match node {
        SpecValue::Obj(entries) => spec_traverse_obj(p, node, 0, parent_key, st),
        SpecValue::Arr(items) => spec_traverse_arr(p, node, 0, parent_key, st),
        _ => {
            let s = spec_to_string_raw(node);
            if s.len() > 0 {
                Ok(w_text(p, st, s))
            } else {
                Ok(st)
            }
        },
    }
}

/// The walk over a map's entries from the given index on. Under an
/// attr-key or char-key parent nothing is written. A char-key entry of a
/// non-leaf map under indented rendering becomes a raw, explicitly
/// indented text line; other entries get their tags, lists carrying the
/// key down to each item.
pub open spec fn spec_traverse_obj(
    p: XmlPolicy,
    node: SpecValue,
    i: int,
    parent_key: Option<Seq<char>>,
    st: WState,
) -> Result<WState, ()>
    decreases node, 0int, (if node is Obj { node->Obj_0.len() - i } else { 0 }),
{
    if node is Obj {
        let entries = node->Obj_0;
        if 0 <= i < entries.len() {
            let key = entries[i].0;
            let child = entries[i].1;
            let pk: Seq<char> = match parent_key {
                Some(k) => k,
                None => Seq::empty(),
            };
            if !(pk == p.attrkey) && !(pk == p.charkey) {
                let step: Result<WState, ()> = if key == p.charkey {
                    if indent_on(p) && !spec_is_leaf(p, entries) {
                        if child is Str {
                            Ok(w_raw(w_indent(p, st), child->Str_0))
                        } else {
                            Ok(st)
                        }
                    } else {
                        spec_traverse(p, child, Some(key), st)
                    }
                } else if !(key == p.attrkey) {
                    if !(child is Arr) {
                        match w_start_tag(p, st, key, child) {
                            Err(()) => Err(()),
                            Ok(st1) => match spec_traverse(p, child, None, st1) {
                                Err(()) => Err(()),
                                Ok(st2) => Ok(w_end_tag(p, st2, key, child)),
                            },
                        }
                    } else {
                        spec_traverse(p, child, Some(key), st)
                    }
                } else {
                    spec_traverse(p, child, Some(key), st)
                };
                match step {
                    Err(()) => Err(()),
                    Ok(st_next) => spec_traverse_obj(p, node, i + 1, parent_key, st_next),
                }
            } else {
                spec_traverse_obj(p, node, i + 1, parent_key, st)
            }
        } else {
            Ok(st)
        }
    } else {
        Ok(st)
    }
}

/// The walk over a list's items from the given index on: with a carried
/// key every item is wrapped in that tag; without one each item is
/// traversed bare.
pub open spec fn spec_traverse_arr(
    p: XmlPolicy,
    node: SpecValue,
    i: int,
    parent_key: Option<Seq<char>>,
    st: WState,
) -> Result<WState, ()>
    decreases node, 0int, (if node is Arr { node->Arr_0.len() - i } else { 0 }),
{
    if node is Arr {
        let items = node->Arr_0;
        if 0 <= i < items.len() {
            let child = items[i];
            let step: Result<WState, ()> = match parent_key {
                Some(pk) => {
                    match w_start_tag(p, st, pk, child) {
                        Err(()) => Err(()),
                        Ok(st1) => match spec_traverse(p, child, None, st1) {
                            Err(()) => Err(()),
                            Ok(st2) => Ok(w_end_tag(p, st2, pk, child)),
                        },
                    }
                },
                None => spec_traverse(p, child, None, st),
            };
            match step {
                Err(()) => Err(()),
                Ok(st_next) => spec_traverse_arr(p, node, i + 1, parent_key, st_next),
            }
        } else {
            Ok(st)
        }
    } else {
        Ok(st)
    }
}

/// The number of keys of a map value, zero for anything else.
pub open spec fn spec_obj_len(v: SpecValue) -> int {
    if v is Obj {
        v->Obj_0.len() as int
    } else {
        0
    }
}

/// The whole encoding of a root value: the declaration, then the value,
/// wrapped in an explicit root element unless the configured root name
/// is the built-in default and the value has at most one top-level key.
pub open spec fn spec_encode(p: XmlPolicy, root: SpecValue) -> Result<WState, ()> {
    let st0 = WState { out: Seq::empty(), pending: false, ind: Seq::empty(), bad: false };
    let st1 = w_decl(p, st0);
    let wrap = !(p.root_name == "root"@) || spec_obj_len(root) > 1;
    let st2 = if wrap {
        w_start_tag(p, st1, p.root_name, root)
    } else {
        Ok(st1)
    };
    match st2 {
        Err(()) => Err(()),
        Ok(st2v) => match spec_traverse(p, root, Some(p.root_name), st2v) {
            Err(()) => Err(()),
            Ok(st3) => Ok(
                if wrap {
                    w_end_tag(p, st3, p.root_name, root)
                } else {
                    st3
                },
            ),
        },
    }
}

/// The configuration fields of the encoder before defaulting.
pub struct XmlConfigView {
    pub attrkey: Option<Seq<char>>,
    pub charkey: Option<Seq<char>>,
    pub root_name: Option<Seq<char>>,
    pub decl: Option<DeclView>,
    pub rendering: Option<IndentView>,
}

/// Configuration options for `XmlBuilder`, built up in the builder
/// pattern; unset options take their defaults at `finalize`.
pub struct XmlConfig {
    attrkey: Option<String>,
    charkey: Option<String>,
    root_name: Option<String>,
    decl: Option<Declaration>,
    rendering: Option<Indentation>,
}

impl View for XmlConfig {
    type V = XmlConfigView;

    closed spec fn view(&self) -> XmlConfigView {
        XmlConfigView {
            attrkey: match self.attrkey {
                Some(s) => Some(s@),
                None => None,
            },
            charkey: match self.charkey {
                Some(s) => Some(s@),
                None => None,
            },
            root_name: match self.root_name {
                Some(s) => Some(s@),
                None => None,
            },
            decl: match self.decl {
                Some(d) => Some(d@),
                None => None,
            },
            rendering: match self.rendering {
                Some(i) => Some(i@),
                None => None,
            },
        }
    }
}

/// The policy that an unset encoder configuration finalizes to.
pub open spec fn spec_xml_finalize(c: XmlConfigView) -> XmlPolicy {
    XmlPolicy {
        attrkey: match c.attrkey {
            Some(s) => s,
            None => "$"@,
        },
        charkey: match c.charkey {
            Some(s) => s,
            None => "_"@,
        },
        root_name: match c.root_name {
            Some(s) => s,
            None => "root"@,
        },
        decl: match c.decl {
            Some(d) => d,
            None => DeclView { version: Version::XML10, encoding: None, standalone: None },
        },
        indent: c.rendering,
    }
}

/// The fresh writer state.
pub open spec fn spec_wstate_init() -> WState {
    WState { out: Seq::empty(), pending: false, ind: Seq::empty(), bad: false }
}

impl XmlConfig {
    /// Initialize a new `XmlConfig` instance with every option unset.
    pub fn new() -> (r: XmlConfig)
        ensures
            r@ == (XmlConfigView {
                attrkey: None,
                charkey: None,
                root_name: None,
                decl: None,
                rendering: None,
            }),
    {
        XmlConfig { attrkey: None, charkey: None, root_name: None, decl: None, rendering: None }
    }

    /// Root element name wrapped around the produced document; when left
    /// at its default `"root"`, the output is not wrapped (`"root"` by
    /// default).
    pub fn root_name(self, key: &str) -> (r: XmlConfig)
        ensures
            r@ == (XmlConfigView { root_name: Some(key@), ..self@ }),
    {
        XmlConfig { root_name: Some(key.to_owned()), ..self }
    }

    /// The key attributes are read from (`"$"` by default).
    pub fn attrkey(self, key: &str) -> (r: XmlConfig)
        ensures
            r@ == (XmlConfigView { attrkey: Some(key@), ..self@ }),
    {
        XmlConfig { attrkey: Some(key.to_owned()), ..self }
    }

    /// The key character data is read from (`"_"` by default).
    pub fn charkey(self, key: &str) -> (r: XmlConfig)
        ensures
            r@ == (XmlConfigView { charkey: Some(key@), ..self@ }),
    {
        XmlConfig { charkey: Some(key.to_owned()), ..self }
    }

    /// The XML declaration (version 1.0, nothing else, by default).
    pub fn decl(self, decl: Declaration) -> (r: XmlConfig)
        ensures
            r@ == (XmlConfigView { decl: Some(decl@), ..self@ }),
    {
        XmlConfig { decl: Some(decl), ..self }
    }

    /// Rendering indentation options (none by default: compact output).
    pub fn rendering(self, indentation: Indentation) -> (r: XmlConfig)
        ensures
            r@ == (XmlConfigView { rendering: Some(indentation@), ..self@ }),
    {
        XmlConfig { rendering: Some(indentation), ..self }
    }

    /// Finalize configuration options and build an `XmlBuilder` instance.
    pub fn finalize(&self) -> (r: XmlBuilder)
        ensures
            r.policy() == spec_xml_finalize(self@),
            r.wstate() == spec_wstate_init(),
    {
        XmlBuilder {
            attrkey: match &self.attrkey {
                Some(s) => s.clone(),
                None => "$".to_owned(),
            },
            charkey: match &self.charkey {
                Some(s) => s.clone(),
                None => "_".to_owned(),
            },
            root_name: match &self.root_name {
                Some(s) => s.clone(),
                None => "root".to_owned(),
            },
            decl: match self.decl {
                Some(d) => d,
                None => Declaration::default(),
            },
            indent: self.rendering,
            out: Vec::new(),
            pending: false,
            ind: Vec::new(),
            bad: false,
        }
    }
}

impl Default for XmlConfig {
    /// Every option unset.
    fn default() -> (r: XmlConfig)
        ensures
            r@ == (XmlConfigView {
                attrkey: None,
                charkey: None,
                root_name: None,
                decl: None,
                rendering: None,
            }),
    {
        XmlConfig::new()
    }
}

/// The value-to-markup transcoder: an immutable encode policy plus the
/// writer state of the conversion in progress.
pub struct XmlBuilder {
    attrkey: String,
    charkey: String,
    root_name: String,
    decl: Declaration,
    indent: Option<Indentation>,
    out: Vec<char>,
    pending: bool,
    ind: Vec<char>,
    bad: bool,
}

impl XmlBuilder {
    /// The encode policy this builder was finalized with.
    pub closed spec fn policy(&self) -> XmlPolicy {
        XmlPolicy {
            attrkey: self.attrkey@,
            charkey: self.charkey@,
            root_name: self.root_name@,
            decl: self.decl@,
            indent: match self.indent {
                Some(iv) => Some(iv@),
                None => None,
            },
        }
    }

    /// The writer state.
    pub closed spec fn wstate(&self) -> WState {
        WState { out: self.out@, pending: self.pending, ind: self.ind@, bad: self.bad }
    }
}

impl Default for XmlBuilder {
    /// The builder under the default policy.
    fn default() -> (r: XmlBuilder)
        ensures
            r.policy() == spec_xml_finalize(
                XmlConfigView {
                    attrkey: None,
                    charkey: None,
                    root_name: None,
                    decl: None,
                    rendering: None,
                },
            ),
            r.wstate() == spec_wstate_init(),
    {
        XmlConfig::new().finalize()
    }
}

impl XmlBuilder {
    /// Whether the key is the attribute key.
    pub fn is_attrkey(&self, key: &str) -> (r: bool)
        ensures
            r == (key@ == self.policy().attrkey),
    {
        str_eq(key, self.attrkey.as_str())
    }

    /// Whether the key is the character-content key.
    pub fn is_charkey(&self, key: &str) -> (r: bool)
        ensures
            r == (key@ == self.policy().charkey),
    {
        str_eq(key, self.charkey.as_str())
    }

    // Appends the characters of a string to the output, raw.
    fn push_str(&mut self, s: &str)
        ensures
            final (self).policy() == old(self).policy(),
            final (self).wstate() == (WState { out: old(self).wstate().out + s@, ..old(self).wstate() }),
    {
        let mut cs = chars_vec(s);
        self.out.append(&mut cs);
    }

    // Writes the pending line break and indentation of a wrapped write.
    fn emit_pre(&mut self)
        ensures
            final (self).policy() == old(self).policy(),
            final (self).wstate() == ({
                let p = old(self).policy();
                let st = old(self).wstate();
                let pre: Seq<char> = if indent_on(p) && st.pending {
                    seq!['\n'] + st.ind
                } else {
                    Seq::empty()
                };
                WState {
                    out: st.out + pre,
                    bad: st.bad || (indent_on(p) && st.pending && st.ind.len() > 0
                        && indent_nonascii(p)),
                    ..st
                }
            }),
    {
        let ghost st = self.wstate();
        match self.indent {
            None => {
                proof {
                    assert(self.wstate().out =~= st.out + Seq::<char>::empty());
                }
            },
            Some(iv) => {
                if self.pending {
                    self.out.push('\n');
                    let n = self.ind.len();
                    let mut k: usize = 0;
                    while k < n
                        invariant
                            0 <= k <= n == self.ind@.len(),
                            self.attrkey == old(self).attrkey,
                            self.charkey == old(self).charkey,
                            self.root_name == old(self).root_name,
                            self.decl == old(self).decl,
                            self.indent == old(self).indent,
                            self.pending == old(self).pending,
                            self.bad == old(self).bad,
                            self.ind == old(self).ind,
                            self.out@ == old(self).out@ + seq!['\n'] + self.ind@.take(k as int),
                        decreases n - k,
                    {
                        let c = self.ind[k];
                        self.out.push(c);
                        proof {
                            assert(self.ind@.take(k + 1) =~= self.ind@.take(k as int).push(
                                self.ind@[k as int],
                            ));
                        }
                        k = k + 1;
                    }
                    if self.ind.len() > 0 && iv.indent_char >= 128 {
                        self.bad = true;
                    }
                    proof {
                        assert(self.ind@.take(n as int) =~= self.ind@);
                        assert(self.wstate().out =~= st.out + (seq!['\n'] + st.ind));
                    }
                } else {
                    proof {
                        assert(self.wstate().out =~= st.out + Seq::<char>::empty());
                    }
                }
            },
        }
    }

    // Writes the XML declaration.
    fn write_xml_decl(&mut self)
        ensures
            final (self).policy() == old(self).policy(),
            final (self).wstate() == w_decl(old(self).policy(), old(self).wstate()),
    {
        self.emit_pre();
        let ghost mid = self.wstate();
        self.push_str("<?xml version=\"");
        let v = self.decl.version_label();
        self.push_str(v);
        self.push_str("\"");
        match self.decl.encoding_label() {
            Some(_e) => {
                self.push_str(" encoding=\"UTF-8\"");
            },
            None => {},
        }
        match self.decl.standalone_flag() {
            Some(true) => {
                self.push_str(" standalone=\"yes\"");
            },
            Some(false) => {
                self.push_str(" standalone=\"no\"");
            },
            None => {},
        }
        self.push_str("?>");
        self.pending = true;
        proof {
            assert(self.wstate().out =~= w_decl(old(self).policy(), old(self).wstate()).out);
        }
    }

    // Grows the indentation by one level.
    fn grow_indent(&mut self)
        ensures
            final (self).policy() == old(self).policy(),
            final (self).wstate() == (WState {
                ind: old(self).wstate().ind + indent_unit(old(self).policy()),
                ..old(self).wstate()
            }),
    {
        match self.indent {
            None => {
                proof {
                    assert(self.ind@ =~= old(self).ind@ + indent_unit(old(self).policy()));
                }
            },
            Some(iv) => {
                let n = iv.indent_size;
                let mut k: usize = 0;
                while k < n
                    invariant
                        0 <= k <= n,
                        self.attrkey == old(self).attrkey,
                        self.charkey == old(self).charkey,
                        self.root_name == old(self).root_name,
                        self.decl == old(self).decl,
                        self.indent == old(self).indent,
                        self.indent == Some(iv),
                        self.pending == old(self).pending,
                        self.bad == old(self).bad,
                        self.out == old(self).out,
                        self.ind@ == old(self).ind@ + Seq::new(
                            k as nat,
                            |i: int| iv@.indent_char as char,
                        ),
                    decreases n - k,
                {
                    self.ind.push(iv.indent_char_value() as char);
                    proof {
                        assert(self.ind@ =~= old(self).ind@ + Seq::new(
                            (k + 1) as nat,
                            |i: int| iv@.indent_char as char,
                        ));
                    }
                    k = k + 1;
                }
                proof {
                    assert(self.ind@ =~= old(self).ind@ + indent_unit(old(self).policy()));
                }
            },
        }
    }

    // Shrinks the indentation by one level.
    fn shrink_indent(&mut self)
        ensures
            final (self).policy() == old(self).policy(),
            final (self).wstate() == ({
                let st = old(self).wstate();
                let unit = indent_unit(old(self).policy());
                let ind2: Seq<char> = if st.ind.len() >= unit.len() {
                    st.ind.take(st.ind.len() - unit.len())
                } else {
                    Seq::empty()
                };
                WState { ind: ind2, ..st }
            }),
    {
        match self.indent {
            None => {
                proof {
                    assert(self.ind@ =~= self.ind@.take(self.ind@.len() as int));
                }
            },
            Some(iv) => {
                let size = iv.indent_size_value();
                let n = self.ind.len();
                if n >= size {
                    self.ind.truncate(n - size);
                } else {
                    self.ind.truncate(0);
                    proof {
                        assert(self.ind@ =~= Seq::<char>::empty());
                    }
                }
            },
        }
    }

    // Writes escaped character data; the following write stays inline.
    fn write_text(&mut self, text: &str)
        ensures
            final (self).policy() == old(self).policy(),
            final (self).wstate() == w_text(old(self).policy(), old(self).wstate(), text@),
    {
        let cs = chars_vec(text);
        escape_into(&mut self.out, cs.as_slice());
        self.pending = false;
    }

    // Writes a string without any indentation bookkeeping.
    fn write_raw(&mut self, value: &str)
        ensures
            final (self).policy() == old(self).policy(),
            final (self).wstate() == w_raw(old(self).wstate(), value@),
    {
        self.push_str(value);
    }

    // Writes an explicit line break and indentation.
    fn write_indent(&mut self)
        ensures
            final (self).policy() == old(self).policy(),
            final (self).wstate() == w_indent(old(self).policy(), old(self).wstate()),
    {
        self.out.push('\n');
        let n = self.ind.len();
        let mut k: usize = 0;
        while k < n
            invariant
                0 <= k <= n == self.ind@.len(),
                self.attrkey == old(self).attrkey,
                self.charkey == old(self).charkey,
                self.root_name == old(self).root_name,
                self.decl == old(self).decl,
                self.indent == old(self).indent,
                self.pending == old(self).pending,
                self.bad == old(self).bad,
                self.ind == old(self).ind,
                self.out@ == old(self).out@ + seq!['\n'] + self.ind@.take(k as int),
            decreases n - k,
        {
            let c = self.ind[k];
            self.out.push(c);
            proof {
                assert(self.ind@.take(k + 1) =~= self.ind@.take(k as int).push(
                    self.ind@[k as int],
                ));
            }
            k = k + 1;
        }
        let nonascii = match self.indent {
            Some(iv) => iv.indent_char_value() >= 128,
            None => false,
        };
        if self.ind.len() > 0 && nonascii {
            self.bad = true;
        }
        proof {
            assert(self.ind@.take(n as int) =~= self.ind@);
            assert(self.wstate().out =~= w_indent(old(self).policy(), old(self).wstate()).out);
        }
    }
}

impl Declaration {
    // The version label of this declaration.
    fn version_label(&self) -> (r: &'static str)
        ensures
            r@ == spec_version_str(self@.version),
    {
        self.version.to_string()
    }

    // The encoding of this declaration.
    fn encoding_label(&self) -> (r: Option<Encoding>)
        ensures
            r == self@.encoding,
    {
        self.encoding
    }

    // The standalone flag of this declaration.
    fn standalone_flag(&self) -> (r: Option<bool>)
        ensures
            r == self@.standalone,
    {
        self.standalone
    }
}

impl Indentation {
    // The fill character.
    fn indent_char_value(&self) -> (r: u8)
        ensures
            r == self@.indent_char,
    {
        self.indent_char
    }

    // The level width.
    fn indent_size_value(&self) -> (r: usize)
        ensures
            r == self@.indent_size,
    {
        self.indent_size
    }
}

proof fn lemma_attrs_of_entries(entries: Seq<(Seq<char>, SpecValue)>, i: int)
    requires
        0 <= i <= entries.len(),
    ensures
        attrs_of_entries(entries, i) == (if (forall|j: int|
            i <= j < entries.len() ==> #[trigger] entries[j].1 is Str) {
            Ok::<Seq<(Seq<char>, Seq<char>)>, ()>(
                Seq::new((entries.len() - i) as nat, |k: int| (entries[i + k].0, entries[i + k].1->Str_0)),
            )
        } else {
            Err::<Seq<(Seq<char>, Seq<char>)>, ()>(())
        }),
    decreases entries.len() - i,
{
    if i < entries.len() {
        lemma_attrs_of_entries(entries, i + 1);
        if entries[i].1 is Str {
            if forall|j: int| i + 1 <= j < entries.len() ==> #[trigger] entries[j].1 is Str {
                let rest = Seq::new(
                    (entries.len() - i - 1) as nat,
                    |k: int| (entries[i + 1 + k].0, entries[i + 1 + k].1->Str_0),
                );
                let whole = Seq::new(
                    (entries.len() - i) as nat,
                    |k: int| (entries[i + k].0, entries[i + k].1->Str_0),
                );
                assert(seq![(entries[i].0, entries[i].1->Str_0)] + rest =~= whole);
            }
        }
    } else {
        assert(Seq::new(0nat, |k: int| (entries[i + k].0, entries[i + k].1->Str_0))
            =~= Seq::<(Seq<char>, Seq<char>)>::empty());
    }
}

impl XmlBuilder {
    /// The attributes for a tag at this node: read from the attr-key
    /// entry of the single wrapped value when the node is a one-element
    /// list, from the node's own attr-key entry when it is a map. An
    /// attribute value that is not a text scalar is a `Syntax` error.
    pub fn tag_attributes(&self, node: &JsonValue) -> (r: Result<Vec<(String, String)>, Error>)
        ensures
            match spec_tag_attributes(self.policy(), node@) {
                Err(()) => {
                    &&& r is Err
                    &&& r->Err_0.kind() == ErrorKind::Syntax
                    &&& r->Err_0.details()@ == "Expected attribute to be a string."@
                },
                Ok(attrs) => r is Ok && attrs_view(r->Ok_0@) == attrs,
            },
        decreases node,
    {
        match node {
            JsonValue::Arr(items) => {
                proof {
                    lemma_arr_view(*items);
                }
                if items.len() == 1 {
                    proof {
                        assert(decreases_to!(*node => *items));
                        assert(decreases_to!(*items => items@));
                        assert(decreases_to!(items@ => items@[0]));
                        assert(node@->Arr_0[0] == items@[0]@);
                    }
                    self.tag_attributes(&items[0])
                } else {
                    let r: Vec<(String, String)> = Vec::new();
                    proof {
                        assert(attrs_view(r@) =~= Seq::<(Seq<char>, Seq<char>)>::empty());
                    }
                    Ok(r)
                }
            },
            JsonValue::Obj(entries) => {
                proof {
                    lemma_obj_view(*entries);
                    crate::value::lemma_obj_find_spec(entries_view(entries@), self.policy().attrkey);
                }
                match crate::value::obj_find_idx(entries, self.attrkey.as_str()) {
                    None => {
                        let r: Vec<(String, String)> = Vec::new();
                        proof {
                            assert(attrs_view(r@) =~= Seq::<(Seq<char>, Seq<char>)>::empty());
                        }
                        Ok(r)
                    },
                    Some(idx) => {
                        proof {
                            assert(entries_view(entries@)[idx as int] == (
                                entries@[idx as int].0@,
                                entries@[idx as int].1@,
                            ));
                        }
                        match &entries[idx].1 {
                            JsonValue::Obj(m) => {
                                proof {
                                    lemma_obj_view(*m);
                                    assert(entries@[idx as int].1 == JsonValue::Obj(*m));
                                }
                                let ghost mv = entries_view(m@);
                                proof {
                                    lemma_attrs_of_entries(mv, 0);
                                }
                                let mut r: Vec<(String, String)> = Vec::new();
                                let n = m.len();
                                let mut j: usize = 0;
                                proof {
                                    assert(attrs_view(r@) =~= Seq::new(
                                        0nat,
                                        |k: int| (mv[k].0, mv[k].1->Str_0),
                                    ));
                                }
                                while j < n
                                    invariant
                                        0 <= j <= n == m@.len(),
                                        mv == entries_view(m@),
                                        spec_tag_attributes(self.policy(), node@)
                                            == attrs_of_entries(mv, 0),
                                        forall|t: int| 0 <= t < j ==> #[trigger] mv[t].1 is Str,
                                        attrs_view(r@) == Seq::new(
                                            j as nat,
                                            |k: int| (mv[k].0, mv[k].1->Str_0),
                                        ),
                                    decreases n - j,
                                {
                                    match &m[j].1 {
                                        JsonValue::Str(s) => {
                                            let ghost r0 = r@;
                                            let kk = m[j].0.clone();
                                            let vs = s.clone();
                                            proof {
                                                assert(kk == m@[j as int].0);
                                                assert(vs == *s);
                                            }
                                            proof {
                                                assert(attrs_view(r@).len() == j as int);
                                                assert(r@.len() == j as int);
                                            }
                                            r.push((kk, vs));
                                            proof {
                                                assert(m@[j as int].1 == JsonValue::Str(*s));
                                                assert(mv[j as int].1 == m@[j as int].1@);
                                                assert(mv[j as int].1->Str_0 == s@);
                                                assert(mv[j as int].0 == m@[j as int].0@);
                                                assert(r@.len() == j + 1);
                                                assert(r@[j as int].0@ == mv[j as int].0);
                                                assert(r@[j as int].1@ == mv[j as int].1->Str_0);
                                                assert forall|k: int| 0 <= k < j + 1 implies
                                                    attrs_view(r@)[k] == (
                                                    mv[k].0,
                                                    mv[k].1->Str_0,
                                                ) by {
                                                    if k < j {
                                                        assert(r@[k] == r0[k]);
                                                        assert(attrs_view(r0)[k] == (
                                                            mv[k].0,
                                                            mv[k].1->Str_0,
                                                        ));
                                                    }
                                                }
                                                assert(attrs_view(r@) =~= Seq::new(
                                                    (j + 1) as nat,
                                                    |k: int| (mv[k].0, mv[k].1->Str_0),
                                                ));
                                            }
                                        },
                                        _ => {
                                            proof {
                                                assert(mv[j as int].1 == m@[j as int].1@);
                                                assert(!(mv[j as int].1 is Str));
                                                lemma_attrs_of_entries(mv, 0);
                                                assert(attrs_of_entries(mv, 0) is Err);
                                            }
                                            return Err(Error::new(
                                                ErrorKind::Syntax,
                                                "Expected attribute to be a string.",
                                            ));
                                        },
                                    }
                                    j = j + 1;
                                }
                                proof {
                                    assert(attrs_view(r@) =~= Seq::new(
                                        (mv.len() - 0) as nat,
                                        |k: int| (mv[0 + k].0, mv[0 + k].1->Str_0),
                                    ));
                                }
                                Ok(r)
                            },
                            _ => {
                                let r: Vec<(String, String)> = Vec::new();
                                proof {
                                    assert(attrs_view(r@) =~= Seq::<(Seq<char>, Seq<char>)>::empty());
                                }
                                Ok(r)
                            },
                        }
                    },
                }
            },
            _ => {
                let r: Vec<(String, String)> = Vec::new();
                proof {
                    assert(attrs_view(r@) =~= Seq::<(Seq<char>, Seq<char>)>::empty());
                }
                Ok(r)
            },
        }
    }

    /// Whether this node renders as a self-closing element: recursively,
    /// it holds no content besides attributes and empty values.
    pub fn is_empty_tag(&self, node: &JsonValue) -> (r: bool)
        ensures
            r == spec_is_empty_tag(self.policy(), node@),
        decreases node,
    {
        match node {
            JsonValue::Arr(items) => {
                proof {
                    lemma_arr_view(*items);
                }
                if items.len() > 0 {
                    proof {
                        assert(decreases_to!(*node => *items));
                        assert(decreases_to!(*items => items@));
                        assert(decreases_to!(items@ => items@[0]));
                        assert(node@->Arr_0[0] == items@[0]@);
                    }
                    let child = &items[0];
                    (child.is_string() && crate::utils::json_is_empty(child)) || self.is_empty_tag(
                        child,
                    )
                } else {
                    crate::utils::json_is_empty(node)
                }
            },
            JsonValue::Obj(entries) => {
                proof {
                    lemma_obj_view(*entries);
                }
                let ghost ev = entries_view(entries@);
                let n = entries.len();
                let mut i: usize = 0;
                while i < n
                    invariant
                        0 <= i <= n == entries@.len(),
                        *node == JsonValue::Obj(*entries),
                        ev == entries_view(entries@),
                        node@->Obj_0 == ev,
                        forall|j: int|
                            0 <= j < i ==> ev[j].0 == self.policy().attrkey || spec_is_empty(
                                #[trigger] ev[j].1,
                            ),
                    decreases n - i,
                {
                    let k_is_attr = self.is_attrkey(entries[i].0.as_str());
                    let v_empty = crate::utils::json_is_empty(&entries[i].1);
                    proof {
                        assert(ev[i as int] == (entries@[i as int].0@, entries@[i as int].1@));
                    }
                    if !k_is_attr && !v_empty {
                        proof {
                            assert(node@->Obj_0 == ev);
                            assert(!(node@->Obj_0[i as int].0 == self.policy().attrkey
                                || spec_is_empty(node@->Obj_0[i as int].1)));
                        }
                        return false;
                    }
                    i = i + 1;
                }
                proof {
                    assert(node@->Obj_0 == ev);
                }
                true
            },
            _ => crate::utils::json_is_empty(node),
        }
    }

    /// Whether a map holds no keys besides the char-key and the attr-key.
    pub fn is_leaf_node(&self, node: &Vec<(String, JsonValue)>) -> (r: bool)
        ensures
            r == spec_is_leaf(self.policy(), entries_view(node@)),
    {
        let ghost ev = entries_view(node@);
        let n = node.len();
        let mut i: usize = 0;
        while i < n
            invariant
                0 <= i <= n == node@.len(),
                ev == entries_view(node@),
                forall|j: int|
                    0 <= j < i ==> #[trigger] ev[j].0 == self.policy().charkey || ev[j].0
                        == self.policy().attrkey,
            decreases n - i,
        {
            let is_c = self.is_charkey(node[i].0.as_str());
            let is_a = self.is_attrkey(node[i].0.as_str());
            proof {
                assert(ev[i as int] == (node@[i as int].0@, node@[i as int].1@));
            }
            if !is_c && !is_a {
                proof {
                    assert(!(entries_view(node@)[i as int].0 == self.policy().charkey
                        || entries_view(node@)[i as int].0 == self.policy().attrkey));
                }
                return false;
            }
            i = i + 1;
        }
        true
    }

    // Writes the element's start tag, including its attributes, as a
    // self-closing tag when the element has no content.
    fn write_start_tag(&mut self, key: &str, node: &JsonValue) -> (r: Result<(), Error>)
        ensures
            final (self).policy() == old(self).policy(),
            match w_start_tag(old(self).policy(), old(self).wstate(), key@, node@) {
                Err(()) => {
                    &&& r is Err
                    &&& r->Err_0.kind() == ErrorKind::Syntax
                    &&& r->Err_0.details()@ == "Expected attribute to be a string."@
                    &&& final (self).wstate() == old(self).wstate()
                },
                Ok(st) => r is Ok && final (self).wstate() == st,
            },
    {
        let attrs = match self.tag_attributes(node) {
            Ok(a) => a,
            Err(e) => {
                return Err(e);
            },
        };
        let sc = self.is_empty_tag(node);
        self.emit_pre();
        let ghost st_pre = self.wstate();
        self.out.push('<');
        self.push_str(key);
        let ghost av = attrs_view(attrs@);
        let n = attrs.len();
        let mut i: usize = 0;
        proof {
            assert(av.skip(0) =~= av);
            assert(self.wstate().out + attrs_text(av.skip(0)) =~= st_pre.out + seq!['<'] + key@
                + attrs_text(av));
        }
        while i < n
            invariant
                0 <= i <= n == attrs@.len(),
                av == attrs_view(attrs@),
                self.policy() == old(self).policy(),
                self.pending == st_pre.pending,
                self.ind@ == old(self).ind@,
                self.bad == st_pre.bad,
                self.wstate().out + attrs_text(av.skip(i as int)) == st_pre.out + seq!['<'] + key@
                    + attrs_text(av),
            decreases n - i,
        {
            let ghost tail = av.skip(i as int);
            let ghost out0 = self.wstate().out;
            self.out.push(' ');
            self.push_str(attrs[i].0.as_str());
            self.out.push('=');
            self.out.push('"');
            self.push_str(attrs[i].1.as_str());
            self.out.push('"');
            proof {
                assert(tail[0] == av[i as int]);
                assert(av[i as int] == (attrs@[i as int].0@, attrs@[i as int].1@));
                assert(tail.drop_first() =~= av.skip(i + 1));
                assert(attrs_text(tail) == seq![' '] + tail[0].0 + seq!['=', '"'] + tail[0].1
                    + seq!['"'] + attrs_text(av.skip(i + 1)));
                assert(self.wstate().out =~= out0 + seq![' '] + av[i as int].0 + seq!['=', '"']
                    + av[i as int].1 + seq!['"']);
                assert(self.wstate().out + attrs_text(av.skip(i + 1)) =~= out0 + attrs_text(tail));
            }
            i = i + 1;
        }
        proof {
            assert(av.skip(n as int) =~= Seq::<(Seq<char>, Seq<char>)>::empty());
        }
        if sc {
            self.out.push('/');
            self.out.push('>');
        } else {
            self.out.push('>');
            self.grow_indent();
        }
        self.pending = true;
        proof {
            let target = w_start_tag(old(self).policy(), old(self).wstate(), key@, node@)->Ok_0;
            assert(self.wstate().out =~= target.out);
            assert(self.wstate().ind =~= target.ind);
        }
        Ok(())
    }

    // Writes the element's end tag, unless the element was self-closing.
    fn write_end_tag(&mut self, key: &str, node: &JsonValue)
        ensures
            final (self).policy() == old(self).policy(),
            final (self).wstate() == w_end_tag(
                old(self).policy(),
                old(self).wstate(),
                key@,
                node@,
            ),
    {
        if self.is_empty_tag(node) {
            return ;
        }
        self.shrink_indent();
        self.emit_pre();
        self.out.push('<');
        self.out.push('/');
        self.push_str(key);
        self.out.push('>');
        self.pending = true;
        proof {
            let target = w_end_tag(old(self).policy(), old(self).wstate(), key@, node@);
            assert(self.wstate().out =~= target.out);
        }
    }
}

/// The model of an optional parent key.
pub open spec fn pk_view(pk: Option<&str>) -> Option<Seq<char>> {
    match pk {
        Some(k) => Some(k@),
        None => None,
    }
}

impl XmlBuilder {
    // Recursively traverses the value, writing its markup.
    fn traverse(&mut self, node: &JsonValue, parent_key: Option<&str>) -> (r: Result<(), Error>)
        ensures
            final (self).policy() == old(self).policy(),
            match spec_traverse(
                old(self).policy(),
                node@,
                pk_view(parent_key),
                old(self).wstate(),
            ) {
                Err(()) => {
                    &&& r is Err
                    &&& r->Err_0.kind() == ErrorKind::Syntax
                    &&& r->Err_0.details()@ == "Expected attribute to be a string."@
                },
                Ok(st) => r is Ok && final (self).wstate() == st,
            },
        decreases node,
    {
        let ghost p = self.policy();
        let ghost pkv = pk_view(parent_key);
        let ghost st0 = self.wstate();
        match node {
            JsonValue::Obj(entries) => {
                proof {
                    lemma_obj_view(*entries);
                }
                let ghost vv = node@;
                let n = entries.len();
                let mut i: usize = 0;
                while i < n
                    invariant
                        0 <= i <= n == entries@.len(),
                        *node == JsonValue::Obj(*entries),
                        vv == value_view_at(node),
                        vv is Obj && vv->Obj_0 == entries_view(entries@),
                        self.policy() == p,
                        p == old(self).policy(),
                        pkv == pk_view(parent_key),
                        st0 == old(self).wstate(),
                        spec_traverse_obj(p, vv, 0, pkv, st0) == spec_traverse_obj(
                            p,
                            vv,
                            i as int,
                            pkv,
                            self.wstate(),
                        ),
                    decreases n - i,
                {
                    let ghost st_now = self.wstate();
                    let pk: &str = match parent_key {
                        Some(k) => k,
                        None => "",
                    };
                    proof {
                        reveal_strlit("");
                        assert(""@ =~= Seq::<char>::empty());
                        assert(pk@ == (match pkv {
                            Some(k) => k,
                            None => Seq::<char>::empty(),
                        }));
                        assert(vv->Obj_0[i as int] == (
                            entries@[i as int].0@,
                            entries@[i as int].1@,
                        ));
                        assert(decreases_to!(*node => *entries));
                        assert(decreases_to!(*entries => entries@));
                        assert(decreases_to!(entries@ => entries@[i as int]));
                        assert(decreases_to!(entries@[i as int] => entries@[i as int].1));
                    }
                    if !self.is_attrkey(pk) && !self.is_charkey(pk) {
                        let key = &entries[i].0;
                        let child = &entries[i].1;
                        if self.is_charkey(key.as_str()) {
                            let indent_set = match self.indent {
                                Some(_) => true,
                                None => false,
                            };
                            if indent_set && !self.is_leaf_node(entries) {
                                match child {
                                    JsonValue::Str(s) => {
                                        self.write_indent();
                                        let sc = s.clone();
                                        self.write_raw(sc.as_str());
                                    },
                                    _ => {},
                                }
                            } else {
                                match self.traverse(child, Some(key.as_str())) {
                                    Ok(()) => {},
                                    Err(e) => {
                                        return Err(e);
                                    },
                                }
                            }
                        } else if !self.is_attrkey(key.as_str()) {
                            if !child.is_array() {
                                match self.write_start_tag(key.as_str(), child) {
                                    Ok(()) => {},
                                    Err(e) => {
                                        return Err(e);
                                    },
                                }
                                match self.traverse(child, None) {
                                    Ok(()) => {},
                                    Err(e) => {
                                        return Err(e);
                                    },
                                }
                                self.write_end_tag(key.as_str(), child);
                            } else {
                                match self.traverse(child, Some(key.as_str())) {
                                    Ok(()) => {},
                                    Err(e) => {
                                        return Err(e);
                                    },
                                }
                            }
                        } else {
                            match self.traverse(child, Some(key.as_str())) {
                                Ok(()) => {},
                                Err(e) => {
                                    return Err(e);
                                },
                            }
                        }
                    }
                    i = i + 1;
                }
            },
            JsonValue::Arr(items) => {
                proof {
                    lemma_arr_view(*items);
                }
                let ghost vv = node@;
                let n = items.len();
                let mut i: usize = 0;
                while i < n
                    invariant
                        0 <= i <= n == items@.len(),
                        *node == JsonValue::Arr(*items),
                        vv == value_view_at(node),
                        vv is Arr && vv->Arr_0 == crate::value::arr_view(items@),
                        self.policy() == p,
                        p == old(self).policy(),
                        pkv == pk_view(parent_key),
                        st0 == old(self).wstate(),
                        spec_traverse_arr(p, vv, 0, pkv, st0) == spec_traverse_arr(
                            p,
                            vv,
                            i as int,
                            pkv,
                            self.wstate(),
                        ),
                    decreases n - i,
                {
                    proof {
                        assert(vv->Arr_0[i as int] == items@[i as int]@);
                        assert(decreases_to!(*node => *items));
                        assert(decreases_to!(*items => items@));
                        assert(decreases_to!(items@ => items@[i as int]));
                    }
                    let child = &items[i];
                    match parent_key {
                        Some(pk) => {
                            match self.write_start_tag(pk, child) {
                                Ok(()) => {},
                                Err(e) => {
                                    return Err(e);
                                },
                            }
                            match self.traverse(child, None) {
                                Ok(()) => {},
                                Err(e) => {
                                    return Err(e);
                                },
                            }
                            self.write_end_tag(pk, child);
                        },
                        None => {
                            match self.traverse(child, None) {
                                Ok(()) => {},
                                Err(e) => {
                                    return Err(e);
                                },
                            }
                        },
                    }
                    i = i + 1;
                }
            },
            _ => {
                let s = crate::utils::to_string_raw(node);
                if !s.as_str().is_empty() {
                    self.write_text(s.as_str());
                }
            },
        }
        Ok(())
    }

    /// Build XML text from a structured value. Fails with a `Syntax`
    /// error when an attribute value is not a text scalar, and with an
    /// `Encoding` error when a non-ASCII indentation fill character was
    /// written.
    pub fn build_from_json(&mut self, root: &JsonValue) -> (r: Result<String, Error>)
        ensures
            final (self).policy() == old(self).policy(),
            match spec_encode(old(self).policy(), root@) {
                Err(()) => {
                    &&& r is Err
                    &&& r->Err_0.kind() == ErrorKind::Syntax
                    &&& r->Err_0.details()@ == "Expected attribute to be a string."@
                },
                Ok(st) => if st.bad {
                    r is Err && r->Err_0.kind() == ErrorKind::Encoding
                } else {
                    r is Ok && r->Ok_0@ == st.out
                },
            },
    {
        self.out = Vec::new();
        self.pending = false;
        self.ind = Vec::new();
        self.bad = false;
        proof {
            assert(self.wstate() == spec_wstate_init());
        }
        let not_default_root = !str_eq(self.root_name.as_str(), "root");
        let key_len = crate::utils::json_object_key_len(root);
        let wrap = not_default_root || key_len > 1;
        let root_name = self.root_name.clone();
        self.write_xml_decl();
        if wrap {
            match self.write_start_tag(root_name.as_str(), root) {
                Ok(()) => {},
                Err(e) => {
                    return Err(e);
                },
            }
        }
        match self.traverse(root, Some(root_name.as_str())) {
            Ok(()) => {},
            Err(e) => {
                return Err(e);
            },
        }
        if wrap {
            self.write_end_tag(root_name.as_str(), root);
        }
        if self.bad {
            return Err(
                Error::new(ErrorKind::Encoding, "invalid byte sequence from indentation"),
            );
        }
        Ok(string_from_chars(self.out.as_slice()))
    }

    /// Build XML text from a JSON string. A text that is not one JSON
    /// value surrounded by whitespace is a `Syntax` error.
    pub fn build_from_json_string(&mut self, json_s: &str) -> (r: Result<String, Error>)
        ensures
            final (self).policy() == old(self).policy(),
            match crate::jsonparse::parse_json(json_s@) {
                Err(()) => r is Err && r->Err_0.kind() == ErrorKind::Syntax,
                Ok(root) => match spec_encode(old(self).policy(), root) {
                    Err(()) => {
                        &&& r is Err
                        &&& r->Err_0.kind() == ErrorKind::Syntax
                        &&& r->Err_0.details()@ == "Expected attribute to be a string."@
                    },
                    Ok(st) => if st.bad {
                        r is Err && r->Err_0.kind() == ErrorKind::Encoding
                    } else {
                        r is Ok && r->Ok_0@ == st.out
                    },
                },
            },
    {
        let root = match crate::jsonparse::parse_json_exec(json_s) {
            Ok(v) => v,
            Err(()) => {
                return Err(Error::new(ErrorKind::Syntax, "invalid JSON text"));
            },
        };
        self.build_from_json(&root)
    }
}

/// The model of a referenced value.
pub open spec fn value_view_at(v: &JsonValue) -> SpecValue {
    crate::value::value_view(*v)
}

/// An element holding only attributes — a map whose single entry is the
/// attr-key with text-valued attributes — renders self-closing: its
/// start tag takes the `/>` form, its traversal writes nothing, and no
/// end tag is written.
pub proof fn lemma_attr_only_element_self_closing(
    p: XmlPolicy,
    st: WState,
    key: Seq<char>,
    attr_entries: Seq<(Seq<char>, SpecValue)>,
)
    requires
        forall|i: int| 0 <= i < attr_entries.len() ==> (#[trigger] attr_entries[i].1) is Str,
    ensures
        ({
            let node = SpecValue::Obj(seq![(p.attrkey, SpecValue::Obj(attr_entries))]);
            &&& spec_is_empty_tag(p, node)
            &&& w_start_tag(p, st, key, node) == Ok::<WState, ()>(
                w_start(
                    p,
                    st,
                    key,
                    Seq::new(
                        attr_entries.len(),
                        |i: int| (attr_entries[i].0, attr_entries[i].1->Str_0),
                    ),
                    true,
                ),
            )
            &&& spec_traverse(p, node, Option::None, w_start_tag(p, st, key, node)->Ok_0)
                == Ok::<WState, ()>(w_start_tag(p, st, key, node)->Ok_0)
            &&& w_end_tag(p, w_start_tag(p, st, key, node)->Ok_0, key, node) == w_start_tag(
                p,
                st,
                key,
                node,
            )->Ok_0
        }),
{
    let node = SpecValue::Obj(seq![(p.attrkey, SpecValue::Obj(attr_entries))]);
    let entries = node->Obj_0;
    assert(entries[0].0 == p.attrkey);
    assert(spec_is_empty_tag(p, node));
    assert(obj_find(entries, p.attrkey) == Some(0int));
    lemma_attrs_of_entries(attr_entries, 0);
    assert(Seq::new(
        (attr_entries.len() - 0) as nat,
        |k: int| (attr_entries[0 + k].0, attr_entries[0 + k].1->Str_0),
    ) =~= Seq::new(attr_entries.len(), |i: int| (attr_entries[i].0, attr_entries[i].1->Str_0)));
    let st1 = w_start_tag(p, st, key, node)->Ok_0;
    assert(spec_traverse(p, node, Option::None, st1) == spec_traverse_obj(
        p,
        node,
        0,
        Option::None,
        st1,
    ));
    let child = entries[0].1;
    assert(spec_traverse(p, child, Some(p.attrkey), st1) == spec_traverse_obj(
        p,
        child,
        0,
        Some(p.attrkey),
        st1,
    ));
    if attr_entries.len() > 0 {
        assert(spec_traverse_obj(p, child, 0, Some(p.attrkey), st1) == spec_traverse_obj(
            p,
            child,
            1,
            Some(p.attrkey),
            st1,
        ));
        lemma_traverse_obj_under_attr(p, child, 0, st1);
    }
    assert(spec_traverse_obj(p, node, 1, Option::None, st1) == Ok::<WState, ()>(st1));
}

proof fn lemma_traverse_obj_under_attr(p: XmlPolicy, node: SpecValue, i: int, st: WState)
    requires
        node is Obj,
        0 <= i,
    ensures
        spec_traverse_obj(p, node, i, Some(p.attrkey), st) == Ok::<WState, ()>(st),
    decreases node, 0int, (if node is Obj { node->Obj_0.len() - i } else { 0 }),
{
    if i < node->Obj_0.len() {
        lemma_traverse_obj_under_attr(p, node, i + 1, st);
    }
}

} // verus!
