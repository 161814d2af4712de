//! Dual-encoding configuration reader.
//!
//! Configuration files of the host come in two byte encodings: most are
//! 8-bit text, some are 16-bit-per-character.  The reader first tries to
//! parse the bytes as 8-bit text with the grammar's quoting and escaping
//! disabled; when that fails it re-reads the same bytes as 16-bit code units
//! and parses the decoded text with the same grammar settings.  The generic
//! grammar itself is the `ini` crate's, consumed through trusted items.

use vstd::prelude::*;
use vstd::utf8::valid_utf8;
use vstd::utf8::decode_utf8;
use crate::classify::seq_str_views;
use crate::errors::InstallError;
use crate::manifest::Manifest;
use crate::manifest::manifest_from_values;
use crate::manifest::opt_view;
use crate::manifest::split_var_files;
use vstd::string::StringExecFns;

verus! {

/// The `ini` crate's parsed document, carried opaquely.
#[verifier::external_type_specification]
#[verifier::external_body]
pub struct ExIni(ini::Ini);

/// What parsing a text as a section-structured configuration yields: a map
/// from section names to their key-value maps, or nothing when the text is
/// not well-formed.  Names the result of `ini::Ini::load_from_str_opt` with
/// quoting and escaping disabled, which depends on the text alone.
pub uninterp spec fn ini_parse(text: Seq<char>) -> Option<
    Map<Seq<char>, Map<Seq<char>, Seq<char>>>,
>;

/// The sections a parsed document holds.  Names the contents of an
/// `ini::Ini` value.
pub uninterp spec fn ini_sections(doc: ini::Ini) -> Map<Seq<char>, Map<Seq<char>, Seq<char>>>;

/// What decoding a 16-bit code-unit sequence yields, or nothing when the
/// units are not well-formed.  Names the result of `String::from_utf16`,
/// which depends on the units alone.
pub uninterp spec fn utf16_decode(units: Seq<u16>) -> Option<Seq<char>>;

/// Relies on `String::from_utf8`: it succeeds exactly on valid 8-bit text
/// and decodes it losslessly.
#[verifier::external_body]
fn decode_utf8_bytes(bytes: &Vec<u8>) -> (r: Option<String>)
    ensures
        r is Some <==> valid_utf8(bytes@),
        r matches Some(s) ==> s@ == decode_utf8(bytes@),
{
    String::from_utf8(bytes.clone()).ok()
}

/// Relies on `String::from_utf16`: its documentation says it decodes the
/// code units or reports invalid data, and the result depends on the units
/// alone.
#[verifier::external_body]
fn decode_utf16_units(units: &Vec<u16>) -> (r: Option<String>)
    ensures
        r is Some <==> utf16_decode(units@) is Some,
        r matches Some(s) ==> Some(s@) == utf16_decode(units@),
{
    String::from_utf16(units.as_slice()).ok()
}

/// Relies on `ini::Ini::load_from_str_opt` with quoting and escaping
/// disabled: parses the text into sections or fails, on the text alone.
#[verifier::external_body]
fn parse_ini_text(text: &str) -> (r: Option<ini::Ini>)
    ensures
        r is Some <==> ini_parse(text@) is Some,
        r matches Some(doc) ==> Some(ini_sections(doc)) == ini_parse(text@),
{
    let opt = ini::ParseOption { enabled_quote: false, enabled_escape: false, ..Default::default() };
    ini::Ini::load_from_str_opt(text, opt).ok()
}

/// Relies on `ini::Ini::section` and `ini::Properties::get`: the first value
/// stored under the key in the named section, if both exist.
#[verifier::external_body]
fn ini_get(doc: &ini::Ini, section: &str, key: &str) -> (r: Option<String>)
    ensures
        match r {
            Some(v) => ini_sections(*doc).contains_key(section@) && ini_sections(
                *doc,
            )[section@].contains_key(key@) && v@ == ini_sections(*doc)[section@][key@],
            None => !(ini_sections(*doc).contains_key(section@) && ini_sections(
                *doc,
            )[section@].contains_key(key@)),
        },
{
    match doc.section(Some(section)) {
        Some(props) => match props.get(key) {
            Some(v) => Some(v.to_owned()),
            None => None,
        },
        None => None,
    }
}

/// The bytes carry the big-endian byte-order mark.
pub open spec fn has_be_bom(b: Seq<u8>) -> bool {
    b.len() >= 2 && b[0] == 0xfeu8 && b[1] == 0xffu8
}

/// The bytes carry the little-endian byte-order mark.
pub open spec fn has_le_bom(b: Seq<u8>) -> bool {
    b.len() >= 2 && b[0] == 0xffu8 && b[1] == 0xfeu8
}

/// The big-endian code unit at pair `i`.
pub open spec fn be_unit(b: Seq<u8>, i: int) -> u16 {
    (b[2 * i] * 256 + b[2 * i + 1]) as u16
}

/// The little-endian code unit at pair `i`.
pub open spec fn le_unit(b: Seq<u8>, i: int) -> u16 {
    (b[2 * i + 1] * 256 + b[2 * i]) as u16
}

/// The 16-bit code units of the bytes: after a byte-order mark the rest of
/// the bytes in the order it names, otherwise all bytes little-endian; a
/// trailing odd byte is dropped.
pub open spec fn utf16_units_spec(b: Seq<u8>) -> Seq<u16> {
    if has_be_bom(b) {
        Seq::new(((b.len() - 2) / 2) as nat, |i: int| be_unit(b.skip(2), i))
    } else if has_le_bom(b) {
        Seq::new(((b.len() - 2) / 2) as nat, |i: int| le_unit(b.skip(2), i))
    } else {
        Seq::new((b.len() / 2) as nat, |i: int| le_unit(b, i))
    }
}

/// Pairs the bytes into 16-bit code units, honoring a byte-order mark.
pub fn utf16_units(bytes: &Vec<u8>) -> (units: Vec<u16>)
    ensures
        units@ == utf16_units_spec(bytes@),
{
    let n = bytes.len();
    let big_endian = n >= 2 && bytes[0] == 0xfe && bytes[1] == 0xff;
    let little_bom = n >= 2 && bytes[0] == 0xff && bytes[1] == 0xfe;
    let off: usize = if big_endian || little_bom {
        2
    } else {
        0
    };
    let count = (n - off) / 2;
    let mut units: Vec<u16> = Vec::new();
    let mut i: usize = 0;
    while i < count
        invariant
            i <= count,
            off == 2 || off == 0,
            off <= n,
            n == bytes@.len(),
            count == (n - off) / 2,
            big_endian == has_be_bom(bytes@),
            (big_endian || little_bom) <==> off == 2,
            units@.len() == i,
            forall|j: int|
                0 <= j < i ==> #[trigger] units@[j] == if big_endian {
                    be_unit(bytes@.skip(2), j)
                } else if off == 2 {
                    le_unit(bytes@.skip(2), j)
                } else {
                    le_unit(bytes@, j)
                },
        decreases count - i,
    {
        let lo_idx = off + 2 * i;
        let a = bytes[lo_idx];
        let b = bytes[lo_idx + 1];
        let unit: u16 = if big_endian {
            (a as u16) * 256 + (b as u16)
        } else {
            (b as u16) * 256 + (a as u16)
        };
        proof {
            if off == 2 {
                assert(bytes@.skip(2)[2 * i] == bytes@[2 + 2 * i]);
                assert(bytes@.skip(2)[2 * i + 1] == bytes@[2 + 2 * i + 1]);
            }
        }
        units.push(unit);
        i = i + 1;
    }
    proof {
        assert(units@ =~= utf16_units_spec(bytes@));
    }
    units
}

/// The sections of a configuration file's bytes, if either encoding attempt
/// can read them.
pub open spec fn config_model(bytes: Seq<u8>) -> Option<
    Map<Seq<char>, Map<Seq<char>, Seq<char>>>,
> {
    if valid_utf8(bytes) && ini_parse(decode_utf8(bytes)) is Some {
        ini_parse(decode_utf8(bytes))
    } else {
        match utf16_decode(utf16_units_spec(bytes)) {
            Some(t) => ini_parse(t),
            None => None,
        }
    }
}

/// Parses a configuration file's bytes: first as 8-bit text, then, when
/// that fails, as 16-bit-per-character text, both with the same grammar
/// settings.  Fails exactly when both attempts fail.
pub fn parse_config(bytes: &Vec<u8>) -> (r: Result<ini::Ini, InstallError>)
    ensures
        r is Ok <==> config_model(bytes@) is Some,
        r matches Ok(doc) ==> Some(ini_sections(doc)) == config_model(bytes@),
        r matches Err(e) ==> e == InstallError::ConfigParseError,
{
    match decode_utf8_bytes(bytes) {
        Some(text) => {
            match parse_ini_text(text.as_str()) {
                Some(doc) => {
                    return Ok(doc);
                },
                None => {},
            }
        },
        None => {},
    }
    let units = utf16_units(bytes);
    match decode_utf16_units(&units) {
        Some(text) => match parse_ini_text(text.as_str()) {
            Some(doc) => Ok(doc),
            None => Err(InstallError::ConfigParseError),
        },
        None => Err(InstallError::ConfigParseError),
    }
}

/// The value under `key` in `section`, when both exist.
pub open spec fn section_value(
    m: Map<Seq<char>, Map<Seq<char>, Seq<char>>>,
    section: Seq<char>,
    key: Seq<char>,
) -> Option<Seq<char>> {
    if m.contains_key(section) && m[section].contains_key(key) {
        Some(m[section][key])
    } else {
        None
    }
}

/// Reads the manifest's recognized keys out of its parsed document.
pub fn read_manifest(doc: &ini::Ini) -> (m: Manifest)
    ensures
        opt_view(m.load_type) == section_value(ini_sections(*doc), "rmskin"@, "LoadType"@),
        opt_view(m.load) == section_value(ini_sections(*doc), "rmskin"@, "Load"@),
        seq_str_views(m.variable_files@) == match section_value(
            ini_sections(*doc),
            "rmskin"@,
            "VariableFiles"@,
        ) {
            Some(s) => split_var_files(s),
            None => Seq::<Seq<char>>::empty(),
        },
        m.merge_skins == (section_value(ini_sections(*doc), "rmskin"@, "MergeSkins"@) == Some(
            "1"@,
        )),
{
    let load_type = ini_get(doc, "rmskin", "LoadType");
    let load = ini_get(doc, "rmskin", "Load");
    let variable_files = ini_get(doc, "rmskin", "VariableFiles");
    let merge_skins = ini_get(doc, "rmskin", "MergeSkins");
    manifest_from_values(load_type, load, variable_files, merge_skins)
}

/// Resolves the host's skins directory from its settings: the configured
/// path when one is set, else the documented default under the user profile.
pub fn resolve_skins_path(doc: &ini::Ini, user_profile: &str) -> (r: String)
    ensures
        r@ == match section_value(ini_sections(*doc), "Rainmeter"@, "SkinPath"@) {
            Some(p) => p,
            None => user_profile@ + "\\Documents\\Rainmeter\\Skins\\"@,
        },
{
    match ini_get(doc, "Rainmeter", "SkinPath") {
        Some(p) => p,
        None => user_profile.to_owned().concat("\\Documents\\Rainmeter\\Skins\\"),
    }
}

} // verus!
