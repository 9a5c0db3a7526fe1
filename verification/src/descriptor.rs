//! Telling apart the two container shapes a model document comes in — a
//! plain XML file, or an archive holding a `model.xml` entry — and decoding
//! raw document bytes into text.

use vstd::prelude::*;

use crate::tree::str_eq;

verus! {

/// Where a model document lives: directly in an XML file, or inside an
/// archive under a fixed entry name.
#[derive(Debug, PartialEq, Eq)]
pub enum FileDescriptor {
    PlainXml { path: String },
    ZippedXml { zip_path: String, xml_filename: String },
}

/// What can go wrong while a document's container shape is examined.
#[derive(Debug, PartialEq, Eq, Structural)]
pub enum DescriptorError {
    /// Neither shape fits: the bytes are not XML text and no archive entry
    /// holds a model document.
    UnrecognizedFormat,
}

/// The text that the WHATWG `UTF-8` decode of these bytes yields, with
/// malformed sequences replaced and a leading byte-order mark removed.
pub uninterp spec fn utf8_lossy_of(bytes: Seq<u8>) -> Seq<char>;

/// Relies on `encoding_rs::UTF_8.decode`: the non-streaming WHATWG decode
/// of a whole buffer, a function of the bytes alone.  A buffer of plain
/// ASCII bytes holds no byte-order mark and is valid UTF-8, so it decodes
/// to exactly those characters.
#[verifier::external_body]
fn decode_utf8(bytes: &Vec<u8>) -> (r: String)
    requires
        bytes@.len() < usize::MAX / 4,
    ensures
        r@ == utf8_lossy_of(bytes@),
        (forall|i: int| 0 <= i < bytes@.len() ==> bytes@[i] < 128) ==> r@ == bytes@.map_values(
            |b: u8| b as char,
        ),
{
    let (decoded, _, _) = encoding_rs::UTF_8.decode(bytes.as_slice());
    decoded.into_owned()
}

/// Decode a whole document's bytes into text, replacing malformed
/// sequences and dropping a leading byte-order mark.
pub fn decode_document(bytes: &Vec<u8>) -> (r: String)
    requires
        bytes@.len() < usize::MAX / 4,
    ensures
        r@ == utf8_lossy_of(bytes@),
{
    decode_utf8(bytes)
}

/// The text that the plain `UTF-8` decode of these bytes yields, with
/// malformed sequences replaced and no byte-order-mark handling.
pub uninterp spec fn utf8_raw_lossy_of(bytes: Seq<u8>) -> Seq<char>;

/// Relies on `encoding_rs::UTF_8.decode_without_bom_handling`: the decode
/// of a whole buffer without byte-order-mark sniffing, a function of the
/// bytes alone.  Plain ASCII bytes are valid UTF-8 and decode to exactly
/// those characters.
#[verifier::external_body]
fn decode_utf8_raw(bytes: &Vec<u8>) -> (r: String)
    requires
        bytes@.len() < usize::MAX / 4,
    ensures
        r@ == utf8_raw_lossy_of(bytes@),
        (forall|i: int| 0 <= i < bytes@.len() ==> bytes@[i] < 128) ==> r@ == bytes@.map_values(
            |b: u8| b as char,
        ),
{
    let (decoded, _) = encoding_rs::UTF_8.decode_without_bom_handling(bytes.as_slice());
    decoded.into_owned()
}

/// The marker every XML document's text carries.
pub open spec fn xml_marker() -> Seq<char> {
    "<?xml"@
}

/// Whether the text holds the XML declaration marker anywhere.
pub open spec fn holds_xml_marker(s: Seq<char>) -> bool {
    exists|i: int| 0 <= i <= s.len() - 5 && #[trigger] s.subrange(i, i + 5) == xml_marker()
}

/// Whether the decoded text of a document's bytes holds the XML
/// declaration marker anywhere: the probe that tells a plain XML file from
/// everything else.
pub fn looks_like_xml(bytes: &Vec<u8>) -> (r: bool)
    requires
        bytes@.len() < usize::MAX / 4,
    ensures
        r == holds_xml_marker(utf8_raw_lossy_of(bytes@)),
{
    let text = decode_utf8_raw(bytes);
    let s = text.as_str();
    let n = s.unicode_len();
    proof {
        reveal_strlit("<?xml");
    }
    if n < 5 {
        return false;
    }
    let mut i: usize = 0;
    while i <= n - 5
        invariant
            5 <= n,
            n == s@.len(),
            s@ == utf8_raw_lossy_of(bytes@),
            i <= n - 4,
            forall|j: int| 0 <= j < i as int ==> #[trigger] s@.subrange(j, j + 5)
                != xml_marker(),
        decreases n - i,
    {
        let mut k: usize = 0;
        let mut matches = true;
        while k < 5 && matches
            invariant
                k <= 5,
                i + 5 <= n,
                n == s@.len(),
                matches ==> forall|j: int| 0 <= j < k as int ==> s@[i + j] == xml_marker()[j],
                !matches ==> !(s@.subrange(i as int, i as int + 5) == xml_marker()),
            decreases 5 - k + (if matches {
                1int
            } else {
                0int
            }),
        {
            proof {
                reveal_strlit("<?xml");
            }
            let c = s.get_char(i + k);
            let expected: char = if k == 0 {
                '<'
            } else if k == 1 {
                '?'
            } else if k == 2 {
                'x'
            } else if k == 3 {
                'm'
            } else {
                'l'
            };
            proof {
                assert(xml_marker()[k as int] == expected);
            }
            if c != expected {
                proof {
                    assert(s@.subrange(i as int, i as int + 5)[k as int] == s@[i + k]);
                }
                matches = false;
            } else {
                k = k + 1;
            }
        }
        if matches {
            proof {
                reveal_strlit("<?xml");
                assert(s@.subrange(i as int, i as int + 5) =~= xml_marker());
                assert(holds_xml_marker(s@));
            }
            return true;
        }
        i = i + 1;
    }
    proof {
        assert forall|j: int| 0 <= j <= s@.len() - 5 implies #[trigger] s@.subrange(j, j + 5)
            != xml_marker() by {
            assert(j < i as int);
        }
    }
    false
}

/// The fixed name of the model entry inside an archive.
pub open spec fn model_entry_name() -> Seq<char> {
    "model.xml"@
}

/// The first archive entry named `model.xml`, if any.
pub open spec fn find_model_entry(names: Seq<Seq<char>>) -> Option<int>
    decreases names,
{
    if names.len() == 0 {
        None
    } else if names[0] == model_entry_name() {
        Some(0)
    } else {
        match find_model_entry(names.drop_first()) {
            None => None,
            Some(j) => Some(j + 1),
        }
    }
}

/// A scan that stopped at the first model entry found what
/// `find_model_entry` names.
proof fn lemma_find_model_at(names: Seq<Seq<char>>, i: int)
    requires
        0 <= i < names.len(),
        names[i] == model_entry_name(),
        forall|j: int| 0 <= j < i ==> names[j] != model_entry_name(),
    ensures
        find_model_entry(names) == Some(i),
    decreases names,
{
    if i > 0 {
        lemma_find_model_at(names.drop_first(), i - 1);
    }
}

/// A scan that found no model entry means `find_model_entry` answers
/// `None`.
proof fn lemma_find_model_absent(names: Seq<Seq<char>>)
    requires
        forall|j: int| 0 <= j < names.len() ==> names[j] != model_entry_name(),
    ensures
        find_model_entry(names) is None,
    decreases names,
{
    if names.len() > 0 {
        lemma_find_model_absent(names.drop_first());
    }
}

/// The images of a run of entry names.
pub open spec fn names_view(s: Seq<String>) -> Seq<Seq<char>> {
    s.map_values(|x: String| x@)
}

impl FileDescriptor {
    /// Decide a document's container shape from what its bytes and its
    /// archive listing show: bytes whose decoded text holds the XML marker
    /// name a plain XML file; otherwise an archive entry named `model.xml`
    /// names an archive-wrapped document; otherwise neither shape fits.
    /// `zip_entries` lists the archive's entry names, empty when the file
    /// is no readable archive.
    pub fn describe(path: String, content_is_xml: bool, zip_entries: &Vec<String>) -> (r: Result<
        FileDescriptor,
        DescriptorError,
    >)
        ensures
            match r {
                Ok(d) => {
                    &&& content_is_xml ==> (d matches FileDescriptor::PlainXml { path: p } && p@
                        == path@)
                    &&& !content_is_xml ==> {
                        &&& find_model_entry(names_view(zip_entries@)) is Some
                        &&& (d matches FileDescriptor::ZippedXml { zip_path, xml_filename }
                            && zip_path@ == path@ && xml_filename@ == model_entry_name())
                    }
                },
                Err(_) => !content_is_xml && find_model_entry(names_view(zip_entries@)) is None,
            },
    {
        if content_is_xml {
            return Ok(FileDescriptor::PlainXml { path });
        }
        let ghost ns = names_view(zip_entries@);
        let mut i: usize = 0;
        while i < zip_entries.len()
            invariant
                !content_is_xml,
                i <= zip_entries@.len(),
                ns == names_view(zip_entries@),
                ns.len() == zip_entries@.len(),
                forall|j: int| 0 <= j < i as int ==> ns[j] != model_entry_name(),
            decreases zip_entries.len() - i,
        {
            if str_eq(zip_entries[i].as_str(), "model.xml") {
                proof {
                    assert(ns[i as int] == model_entry_name());
                    lemma_find_model_at(ns, i as int);
                }
                let name = zip_entries[i].clone();
                proof {
                    assert(name@ == model_entry_name());
                }
                return Ok(FileDescriptor::ZippedXml { zip_path: path, xml_filename: name });
            }
            i = i + 1;
        }
        proof {
            lemma_find_model_absent(ns);
        }
        Err(DescriptorError::UnrecognizedFormat)
    }
}

} // verus!
