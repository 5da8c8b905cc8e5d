//! Documents: an identity, the revision that was loaded, and a tree of
//! properties that can be edited in place.

use crate::error::{Error, ErrorCode, FleeceError};
use crate::fleece::{Dict, Entries, ValueModel};
use crate::json::{hex_char, json_text, parse, parse_json, spec_json_error};
use crate::fleece_mutable::MutableDict;
use crate::text::{decimal_text, push_decimal};
use vstd::prelude::*;

verus! {

/// What to do when a document has been saved by someone else since it was
/// loaded.
#[derive(Debug, Clone, Copy, PartialEq, Eq, Structural)]
pub enum ConcurrencyControl {
    /// The revision being saved replaces the stored one.
    LastWriteWins,
    /// The save fails with a conflict, and the stored revision stays.
    FailOnConflict,
}

/// What a document is, as mathematics: its id, the sequence of the revision it
/// holds (0 for a document that was never saved), and its properties.
pub ghost struct DocumentModel {
    pub id: Seq<char>,
    pub sequence: u64,
    pub properties: Entries,
}

/// An in-memory copy of a document. It stands alone: two copies of one stored
/// document do not see each other's edits, and the database sees none of them
/// before a save.
#[derive(Debug)]
pub struct Document {
    pub(crate) id: String,
    pub(crate) sequence: u64,
    pub(crate) properties: MutableDict,
}

impl View for Document {
    type V = DocumentModel;

    closed spec fn view(&self) -> DocumentModel {
        DocumentModel {
            id: self.id@,
            sequence: self.sequence,
            properties: self.properties.spec_entries(),
        }
    }
}

impl Document {
    /// The validity of the document: that of its properties.
    pub closed spec fn wf(&self) -> bool {
        self.properties.wf()
    }

    /// The properties as a dictionary value.
    pub closed spec fn spec_properties(&self) -> MutableDict {
        self.properties
    }

    /// The properties of a document and its model are the same entries.
    pub proof fn lemma_properties(&self)
        ensures
            self@.properties == self.spec_properties().spec_entries(),
            self.wf() == self.spec_properties().wf(),
            self.spec_properties()@ == ValueModel::Dict(self@.properties),
    {
        self.properties.lemma_view_is_dict();
    }

    /// A new, empty document in memory, with the given id. It is in no database
    /// until it is saved.
    pub fn new_with_id(id: &str) -> (r: Document)
        ensures
            r@ == (DocumentModel { id: id@, sequence: 0, properties: Seq::empty() }),
            r.wf(),
    {
        let r = Document { id: id.to_owned(), sequence: 0, properties: MutableDict::new() };
        proof {
            r.properties.lemma_view_is_dict();
        }
        r
    }

    /// A document as the database stores it.
    pub(crate) fn wrap(id: String, sequence: u64, properties: MutableDict) -> (r: Document)
        requires
            properties.wf(),
        ensures
            r@ == (DocumentModel {
                id: id@,
                sequence,
                properties: properties.spec_entries(),
            }),
            r.wf(),
    {
        Document { id, sequence, properties }
    }

    /// The document's id.
    pub fn id(&self) -> (r: &str)
        ensures
            r@ == self@.id,
    {
        self.id.as_str()
    }

    /// The id of the revision that the document holds: the sequence of that
    /// revision in decimal. `None` for a document that was never saved.
    pub fn revision_id(&self) -> (r: Option<String>)
        ensures
            self@.sequence == 0 ==> r is None,
            self@.sequence != 0 ==> (r matches Some(s) && s@ == decimal_text(self@.sequence as nat)),
    {
        if self.sequence == 0 {
            None
        } else {
            let mut s = String::new();
            push_decimal(&mut s, self.sequence);
            assert(Seq::<char>::empty() + decimal_text(self.sequence as nat) =~= decimal_text(
                self.sequence as nat,
            ));
            Some(s)
        }
    }

    /// The sequence of the revision that the document holds; 0 for a document
    /// that was never saved.
    pub fn sequence(&self) -> (r: u64)
        ensures
            r == self@.sequence,
    {
        self.sequence
    }

    /// True when the document stands for a deleted one, which is told by its
    /// having no properties.
    pub fn is_deleted(&self) -> (r: bool)
        ensures
            r == (self@.properties.len() == 0),
    {
        self.properties().empty()
    }

    /// The properties, read-only.
    pub fn properties(&self) -> (r: Dict<'_>)
        ensures
            r@ == ValueModel::Dict(self@.properties),
            self.wf() ==> r.wf(),
    {
        proof {
            self.properties.lemma_view_is_dict();
        }
        self.properties.as_dict()
    }

    /// The properties, to be edited in place: what is stored through the result
    /// is stored in the document.
    pub fn mutable_properties(&mut self) -> (r: &mut MutableDict)
        ensures
            *r == old(self).spec_properties(),
            final(self).spec_properties() == *final(r),
            final(self)@.id == old(self)@.id,
            final(self)@.sequence == old(self)@.sequence,
    {
        &mut self.properties
    }

    /// Replaces the properties by a copy of `properties`.
    pub fn set_properties(&mut self, properties: &MutableDict)
        ensures
            final(self)@ == (DocumentModel {
                properties: properties.spec_entries(),
                ..old(self)@
            }),
            properties.wf() ==> final(self).wf(),
    {
        self.properties = properties.duplicate();
    }

    /// The properties as JSON text.
    pub fn properties_as_json(&self) -> (r: String)
        ensures
            r@ == json_text(ValueModel::Dict(self@.properties)),
    {
        proof {
            self.properties.lemma_view_is_dict();
        }
        self.properties.to_json()
    }

    /// Replaces the properties by those that the JSON text stands for. Fails
    /// with the encoding's `JSONError` for a text that is no JSON, and with its
    /// `InvalidData` for the text of a value that is no dictionary; then the
    /// document stays as it is.
    pub fn set_properties_as_json(&mut self, json: &str) -> (r: Result<(), Error>)
        requires
            old(self).wf(),
        ensures
            final(self).wf(),
            parse_json(json@) matches Some(ValueModel::Dict(entries)) ==> r is Ok && final(self)@
                == (DocumentModel { properties: entries, ..old(self)@ }),
            parse_json(json@) matches Some(m) ==> (!(m is Dict) ==> r == Err::<(), Error>(
                Error { code: ErrorCode::Fleece(FleeceError::InvalidData), internal_info: None },
            ) && final(self)@ == old(self)@),
            parse_json(json@) is None ==> r == Err::<(), Error>(spec_json_error()) && final(self)@
                == old(self)@,
    {
        match parse(json) {
            Err(e) => Err(e),
            Ok(node) => match MutableDict::from_node(node) {
                Some(dict) => {
                    proof {
                        dict.lemma_view_is_dict();
                    }
                    self.properties = dict;
                    Ok(())
                },
                None => Err(
                    Error { code: ErrorCode::Fleece(FleeceError::InvalidData), internal_info: None },
                ),
            },
        }
    }

    /// Records that the document now holds the revision with `sequence`.
    pub(crate) fn set_sequence(&mut self, sequence: u64)
        ensures
            final(self)@ == (DocumentModel { sequence, ..old(self)@ }),
            final(self).wf() == old(self).wf(),
    {
        self.sequence = sequence;
    }

    /// A copy of the document that shares nothing with it.
    pub fn duplicate(&self) -> (r: Document)
        ensures
            r@ == self@,
            r.wf() == self.wf(),
    {
        Document {
            id: self.id.clone(),
            sequence: self.sequence,
            properties: self.properties.duplicate(),
        }
    }
}

impl Clone for Document {
    fn clone(&self) -> (r: Self)
        ensures
            r@ == self@,
            r.wf() == self.wf(),
    {
        self.duplicate()
    }
}


/// `RandomState::new` of the standard library: a hasher state with keys that
/// are chosen at random. Nothing is claimed of it.
#[verifier::external_body]
fn random_state() -> (state: std::collections::hash_map::RandomState) {
    std::collections::hash_map::RandomState::new()
}

/// `BuildHasher::hash_one` of the standard library, for `RandomState` and a
/// number: a hash of the number under the keys of the state. Nothing is
/// claimed of it: it differs from state to state.
#[verifier::external_body]
fn hash_of(state: &std::collections::hash_map::RandomState, x: u64) -> (h: u64) {
    std::hash::BuildHasher::hash_one(state, x)
}

/// The character of the hexadecimal digit `d`.
fn hex_digit(d: u8) -> (c: char)
    requires
        d < 16,
    ensures
        c == hex_char(d),
{
    match d {
        0 => '0',
        1 => '1',
        2 => '2',
        3 => '3',
        4 => '4',
        5 => '5',
        6 => '6',
        7 => '7',
        8 => '8',
        9 => '9',
        10 => 'a',
        11 => 'b',
        12 => 'c',
        13 => 'd',
        14 => 'e',
        _ => 'f',
    }
}

/// The `count` lowest hexadecimal digits of `n`, the lowest first.
pub open spec fn hex_text(n: nat, count: nat) -> Seq<char>
    decreases count,
{
    if count == 0 {
        Seq::empty()
    } else {
        seq![hex_char((n % 16) as u8)] + hex_text(n / 16, (count - 1) as nat)
    }
}

/// `hex_text` gives as many digits as were asked for.
pub proof fn lemma_hex_text_len(n: nat, count: nat)
    ensures
        hex_text(n, count).len() == count,
    decreases count,
{
    if count > 0 {
        lemma_hex_text_len(n / 16, (count - 1) as nat);
    }
}

/// The id that is made of the two numbers `a` and `b`: a tilde, then the
/// sixteen hexadecimal digits of `a` and those of `b`.
pub open spec fn made_up_id(a: u64, b: u64) -> Seq<char> {
    seq!['~'] + hex_text(a as nat, 16) + hex_text(b as nat, 16)
}

/// Appends the sixteen hexadecimal digits of `n`, the lowest first.
fn push_hex(out: &mut String, n: u64)
    ensures
        final(out)@ == old(out)@ + hex_text(n as nat, 16),
{
    let mut i: u32 = 0;
    let mut rest = n;
    while i < 16
        invariant
            i <= 16,
            out@ + hex_text(rest as nat, (16 - i) as nat) == old(out)@ + hex_text(n as nat, 16),
        decreases 16 - i,
    {
        let d = (rest % 16) as u8;
        let ghost before = out@;
        out.push(hex_digit(d));
        proof {
            let tail = hex_text((rest / 16) as nat, (15 - i) as nat);
            assert(hex_text(rest as nat, (16 - i) as nat) == seq![hex_char(d)] + tail);
            assert(out@ + tail =~= before + (seq![hex_char(d)] + tail));
        }
        rest = rest / 16;
        i += 1;
    }
    assert(out@ + hex_text(rest as nat, 0) =~= out@);
}

impl Document {
    /// A new, empty document in memory, with an id that is made up at random:
    /// a tilde and the 32 hexadecimal digits of two numbers that are drawn for
    /// it. It is in no database until it is saved.
    pub fn new() -> (r: Document)
        ensures
            exists|a: u64, b: u64| r@.id == #[trigger] made_up_id(a, b),
            r@.id.len() == 33,
            r@.id[0] == '~',
            r@.sequence == 0,
            r@.properties == Seq::<(Seq<char>, ValueModel)>::empty(),
            r.wf(),
    {
        let state = random_state();
        let mut id = String::new();
        id.push('~');
        let a = hash_of(&state, 0);
        push_hex(&mut id, a);
        let b = hash_of(&state, 1);
        push_hex(&mut id, b);
        proof {
            lemma_hex_text_len(a as nat, 16);
            lemma_hex_text_len(b as nat, 16);
            assert(id@ =~= made_up_id(a, b));
        }
        let r = Document { id, sequence: 0, properties: MutableDict::new() };
        proof {
            r.properties.lemma_view_is_dict();
        }
        r
    }
}

impl Default for Document {
    fn default() -> (r: Self)
        ensures
            exists|a: u64, b: u64| r@.id == #[trigger] made_up_id(a, b),
            r@.id.len() == 33,
            r@.id[0] == '~',
            r@.sequence == 0,
            r@.properties == Seq::<(Seq<char>, ValueModel)>::empty(),
            r.wf(),
    {
        Document::new()
    }
}

} // verus!
