//! Reading the technical listing (`rar lt`) of a rar archive, line by line.

use vstd::prelude::*;
use crate::archiver::MemberEntry;
use crate::path::{extension, extension_of, file_stem, file_stem_of};
use crate::pattern::{regex_is_match, spec_regex_is_match, Pattern, PatternError};
use crate::text::{
    all_digits, digit_of, digits_value, has_prefix, number_body, parse_number, parse_number_str, starts_with, str_eq, trim,
    trim_end, trim_start, trim_str,
};

verus! {

pub open spec fn name_tag() -> Seq<char> {
    seq!['N', 'a', 'm', 'e', ':']
}

pub open spec fn type_tag() -> Seq<char> {
    seq!['T', 'y', 'p', 'e', ':']
}

pub open spec fn size_tag() -> Seq<char> {
    seq!['S', 'i', 'z', 'e', ':']
}

pub open spec fn crc_tag() -> Seq<char> {
    seq!['C', 'R', 'C', '3', '2', ':']
}

pub open spec fn file_word() -> Seq<char> {
    seq!['F', 'i', 'l', 'e']
}

/// A value after a tag starts one character after the tag; that character
/// must be present and take one byte, as the listing's values are cut at a
/// byte offset.
pub open spec fn value_at(l: Seq<char>, at: int) -> bool {
    l.len() >= at && (l[at - 1] as u32) < 128
}

/// The trimmed line `l` can be read: after each tag the listing reads, the
/// value starts at a character boundary within the line.
pub open spec fn line_readable(l: Seq<char>, read_numbers: bool) -> bool {
    &&& has_prefix(l, name_tag()) ==> value_at(l, 6)
    &&& has_prefix(l, type_tag()) ==> value_at(l, 6)
    &&& read_numbers && has_prefix(l, size_tag()) ==> value_at(l, 6)
    &&& read_numbers && has_prefix(l, crc_tag()) ==> value_at(l, 7)
}

/// A finished entry of the listing: name, whether it is a file, size, CRC.
pub type RarEntryModel = (Seq<char>, bool, u64, u32);

/// An entry of the listing.
#[derive(Debug)]
pub struct RarEntry {
    pub name: String,
    pub is_file: bool,
    pub size: u64,
    pub crc: u32,
}

impl View for RarEntry {
    type V = RarEntryModel;

    open spec fn view(&self) -> RarEntryModel {
        (self.name@, self.is_file, self.size, self.crc)
    }
}

/// A size or CRC in the listing that is not a number of its type.
#[derive(Debug, Clone, Copy, PartialEq, Eq, Structural)]
pub enum ListingError {
    Size,
    Crc,
}

/// What the reader holds between lines: the entry read so far (name, whether
/// it is a file, size, CRC), and whether sizes and CRCs are read at all.
pub type ListingModel = (Seq<char>, bool, u64, u32, bool);

/// The reader of a listing.
#[derive(Debug)]
pub struct RarListing {
    pub name: String,
    pub is_file: bool,
    pub size: u64,
    pub crc: u32,
    pub read_numbers: bool,
}

impl View for RarListing {
    type V = ListingModel;

    open spec fn view(&self) -> ListingModel {
        (self.name@, self.is_file, self.size, self.crc, self.read_numbers)
    }
}

/// The reader's state and result after one line. An empty line ends the
/// entry read so far, if it has a name.
pub open spec fn listing_step(st: ListingModel, line: Seq<char>) -> (ListingModel, Result<Option<RarEntryModel>, ListingError>) {
    let l = trim(line);
    if has_prefix(l, name_tag()) {
        ((l.skip(6), st.1, st.2, st.3, st.4), Ok(None))
    } else if has_prefix(l, type_tag()) {
        ((st.0, l.skip(6) == file_word(), st.2, st.3, st.4), Ok(None))
    } else if st.4 && has_prefix(l, size_tag()) {
        match parse_number(l.skip(6), 10, 0xffff_ffff_ffff_ffff) {
            Some(v) => ((st.0, st.1, v as u64, st.3, st.4), Ok(None)),
            None => (st, Err(ListingError::Size)),
        }
    } else if st.4 && has_prefix(l, crc_tag()) {
        match parse_number(l.skip(7), 16, 0xffff_ffff) {
            Some(v) => ((st.0, st.1, st.2, v as u32, st.4), Ok(None)),
            None => (st, Err(ListingError::Crc)),
        }
    } else if l.len() == 0 && st.0.len() != 0 {
        ((Seq::empty(), false, 0, 0, st.4), Ok(Some((st.0, st.1, st.2, st.3))))
    } else {
        (st, Ok(None))
    }
}

/// Every character of `d` is one of `0` to `9`.
pub open spec fn is_decimal(d: Seq<char>) -> bool {
    forall|i: int| 0 <= i < d.len() ==> '0' <= #[trigger] d[i] && d[i] <= '9'
}

/// The base-10 value of the decimal digits `d`.
pub open spec fn decimal_value(d: Seq<char>) -> int
    decreases d.len(),
{
    if d.len() == 0 {
        0
    } else {
        decimal_value(d.drop_last()) * 10 + ((d.last() as int) - 48)
    }
}

/// Every character of `d` is a hexadecimal digit, in either case.
pub open spec fn is_hex(d: Seq<char>) -> bool {
    forall|i: int|
        0 <= i < d.len() ==> ('0' <= #[trigger] d[i] && d[i] <= '9') || ('a' <= d[i] && d[i] <= 'f') || ('A' <= d[i]
            && d[i] <= 'F')
}

/// The value of the hexadecimal digit `c`.
pub open spec fn hex_digit_value(c: char) -> int {
    if '0' <= c && c <= '9' {
        (c as int) - 48
    } else if 'a' <= c && c <= 'f' {
        (c as int) - 87
    } else {
        (c as int) - 55
    }
}

/// The base-16 value of the hexadecimal digits `d`.
pub open spec fn hex_value(d: Seq<char>) -> int
    decreases d.len(),
{
    if d.len() == 0 {
        0
    } else {
        hex_value(d.drop_last()) * 16 + hex_digit_value(d.last())
    }
}

proof fn lemma_decimal_digits(d: Seq<char>)
    requires
        is_decimal(d),
    ensures
        all_digits(d, 10),
        digits_value(d, 10) == decimal_value(d),
    decreases d.len(),
{
    if d.len() > 0 {
        let p = d.drop_last();
        assert(is_decimal(p)) by {
            assert forall|i: int| 0 <= i < p.len() implies '0' <= #[trigger] p[i] && p[i] <= '9' by {
                assert(p[i] == d[i]);
            }
        }
        lemma_decimal_digits(p);
        assert(d[d.len() - 1] == d.last());
        assert forall|i: int| 0 <= i < d.len() implies digit_of(#[trigger] d[i], 10) >= 0 by {
            assert('0' <= d[i] && d[i] <= '9');
        }
    }
}

proof fn lemma_hex_digits(d: Seq<char>)
    requires
        is_hex(d),
    ensures
        all_digits(d, 16),
        digits_value(d, 16) == hex_value(d),
    decreases d.len(),
{
    if d.len() > 0 {
        let p = d.drop_last();
        assert(is_hex(p)) by {
            assert forall|i: int|
                0 <= i < p.len() implies ('0' <= #[trigger] p[i] && p[i] <= '9') || ('a' <= p[i] && p[i] <= 'f') || (
            'A' <= p[i] && p[i] <= 'F') by {
                assert(p[i] == d[i]);
            }
        }
        lemma_hex_digits(p);
        assert(d[d.len() - 1] == d.last());
        assert forall|i: int| 0 <= i < d.len() implies digit_of(#[trigger] d[i], 16) >= 0 by {
            assert(('0' <= d[i] && d[i] <= '9') || ('a' <= d[i] && d[i] <= 'f') || ('A' <= d[i] && d[i] <= 'F'));
        }
    }
}

/// A `Size:` line whose value is decimal digits sets the size to their
/// base-10 value, as `str::parse::<u64>` reads them, and changes nothing
/// else.
pub proof fn law_listing_size_is_decimal(st: ListingModel, d: Seq<char>)
    requires
        st.4,
        d.len() > 0,
        is_decimal(d),
        decimal_value(d) <= 0xffff_ffff_ffff_ffff,
    ensures
        listing_step(st, size_tag() + seq![' '] + d) == ((st.0, st.1, decimal_value(d) as u64, st.3, st.4), Ok::<
            Option<RarEntryModel>,
            ListingError,
        >(None)),
{
    let l = size_tag() + seq![' '] + d;
    assert(l[0] == 'S');
    assert(l.last() == d.last());
    assert('0' <= d[d.len() - 1] && d[d.len() - 1] <= '9');
    assert(trim_start(l) == l);
    assert(trim_end(l) == l);
    assert(trim(l) == l);
    assert(l.take(5) =~= size_tag());
    assert(l.skip(6) =~= d);
    assert(!has_prefix(l, name_tag())) by {
        assert(l.take(5)[0] != name_tag()[0]);
    }
    assert(!has_prefix(l, type_tag())) by {
        assert(l.take(5)[0] != type_tag()[0]);
    }
    lemma_decimal_digits(d);
    assert(number_body(d) == d);
}

/// A `CRC32:` line whose value is hexadecimal digits sets the CRC to their
/// base-16 value, as `u32::from_str_radix(_, 16)` reads them, and changes
/// nothing else.
pub proof fn law_listing_crc_is_hex(st: ListingModel, d: Seq<char>)
    requires
        st.4,
        d.len() > 0,
        is_hex(d),
        hex_value(d) <= 0xffff_ffff,
    ensures
        listing_step(st, crc_tag() + seq![' '] + d) == ((st.0, st.1, st.2, hex_value(d) as u32, st.4), Ok::<
            Option<RarEntryModel>,
            ListingError,
        >(None)),
{
    let l = crc_tag() + seq![' '] + d;
    assert(l[0] == 'C');
    assert(l.last() == d.last());
    let c = d[d.len() - 1];
    assert(('0' <= c && c <= '9') || ('a' <= c && c <= 'f') || ('A' <= c && c <= 'F'));
    assert(trim_start(l) == l);
    assert(trim_end(l) == l);
    assert(trim(l) == l);
    assert(l.take(6) =~= crc_tag());
    assert(l.skip(7) =~= d);
    assert(!has_prefix(l, name_tag())) by {
        assert(l.take(5)[0] != name_tag()[0]);
    }
    assert(!has_prefix(l, type_tag())) by {
        assert(l.take(5)[0] != type_tag()[0]);
    }
    assert(!has_prefix(l, size_tag())) by {
        assert(l.take(5)[0] != size_tag()[0]);
    }
    lemma_hex_digits(d);
    assert(number_body(d) == d);
}

fn value_after(l: &str, at: usize) -> (r: String)
    requires
        l@.len() >= at,
    ensures
        r@ == l@.skip(at as int),
{
    let n = l.unicode_len();
    let v = l.substring_char(at, n);
    proof {
        assert(v@ =~= l@.skip(at as int));
    }
    String::from_str(v)
}

impl RarListing {
    /// A reader with no entry yet. `read_numbers` selects whether `Size:` and
    /// `CRC32:` lines are read.
    pub fn new(read_numbers: bool) -> (r: RarListing)
        ensures
            r@ == (Seq::<char>::empty(), false, 0u64, 0u32, read_numbers),
    {
        RarListing { name: String::new(), is_file: false, size: 0, crc: 0, read_numbers }
    }

    /// Whether `line` can be fed to the reader.
    pub fn line_admissible(&self, line: &str) -> (r: bool)
        ensures
            r == line_readable(trim(line@), self.read_numbers),
    {
        let l = trim_str(line);
        let (name, ty, size, crc) = tags();
        let n = l.unicode_len();
        let ok6 = n >= 6 && (l.get_char(5) as u32) < 128;
        let ok7 = n >= 7 && (l.get_char(6) as u32) < 128;
        (!starts_with(l, name) || ok6) && (!starts_with(l, ty) || ok6) && (!(self.read_numbers
            && starts_with(l, size)) || ok6) && (!(self.read_numbers && starts_with(l, crc)) || ok7)
    }

    /// Reads one line of the listing: a finished entry, nothing, or the error
    /// of a size or CRC that is not a number.
    pub fn feed(&mut self, line: &str) -> (r: Result<Option<RarEntry>, ListingError>)
        requires
            line_readable(trim(line@), old(self).read_numbers),
        ensures
            listing_step(old(self)@, line@) == (final(self)@, match r {
                Ok(Some(e)) => Ok(Some(e@)),
                Ok(None) => Ok(None),
                Err(e) => Err(e),
            }),
    {
        let l = trim_str(line);
        let (name, ty, size, crc) = tags();
        if starts_with(l, name) {
            self.name = value_after(l, 6);
            Ok(None)
        } else if starts_with(l, ty) {
            let v = value_after(l, 6);
            let file = "File";
            proof {
                reveal_strlit("File");
                assert(file@ =~= file_word());
            }
            self.is_file = str_eq(v.as_str(), file);
            Ok(None)
        } else if self.read_numbers && starts_with(l, size) {
            let v = value_after(l, 6);
            match parse_number_str(v.as_str(), 10, 0xffff_ffff_ffff_ffff) {
                Some(x) => {
                    self.size = x;
                    Ok(None)
                },
                None => Err(ListingError::Size),
            }
        } else if self.read_numbers && starts_with(l, crc) {
            let v = value_after(l, 7);
            match parse_number_str(v.as_str(), 16, 0xffff_ffff) {
                Some(x) => {
                    self.crc = x as u32;
                    Ok(None)
                },
                None => Err(ListingError::Crc),
            }
        } else if l.unicode_len() == 0 && self.name.as_str().unicode_len() != 0 {
            let mut done = String::new();
            std::mem::swap(&mut done, &mut self.name);
            let e = RarEntry { name: done, is_file: self.is_file, size: self.size, crc: self.crc };
            self.is_file = false;
            self.size = 0;
            self.crc = 0;
            Ok(Some(e))
        } else {
            Ok(None)
        }
    }
}

fn tags() -> (r: (&'static str, &'static str, &'static str, &'static str))
    ensures
        r.0@ == name_tag(),
        r.1@ == type_tag(),
        r.2@ == size_tag(),
        r.3@ == crc_tag(),
{
    let r = ("Name:", "Type:", "Size:", "CRC32:");
    proof {
        reveal_strlit("Name:");
        reveal_strlit("Type:");
        reveal_strlit("Size:");
        reveal_strlit("CRC32:");
        assert(r.0@ =~= name_tag());
        assert(r.1@ =~= type_tag());
        assert(r.2@ =~= size_tag());
        assert(r.3@ =~= crc_tag());
    }
    r
}

/// The member that an entry of the listing adds to the scan: files with a
/// CRC other than 0 are recorded, with their CRC.
pub fn scan_member(e: RarEntry) -> (m: MemberEntry)
    ensures
        m@ == (e.name@, e.size, Some(e.crc), e.is_file && e.crc != 0),
{
    let included = e.is_file && e.crc != 0;
    MemberEntry { name: e.name, size: e.size, crc: Some(e.crc), included }
}


/// The pattern of the extensions of the further volumes of an archive:
/// `r` and two digits.
pub open spec fn volume_pattern_source() -> Seq<char> {
    seq!['^', 'r', '\\', 'd', '{', '2', '}', '$']
}

/// Compiles the pattern of the extensions of further volumes.
pub fn volume_pattern() -> (r: Result<Pattern, PatternError>)
    ensures
        r matches Ok(p) ==> p@ == volume_pattern_source(),
{
    let source = "^r\\d{2}$";
    proof {
        reveal_strlit("^r\\d{2}$");
        assert(source@ =~= volume_pattern_source());
    }
    Pattern::new(source)
}

/// `candidate` is a further volume of `container`: the same file stem, and
/// an extension that the volume pattern matches.
pub open spec fn is_volume(container: Seq<char>, candidate: Seq<char>, volume: Seq<char>) -> bool {
    &&& file_stem(container) == file_stem(candidate)
    &&& match extension(candidate) {
        Some(e) => spec_regex_is_match(volume, e),
        None => false,
    }
}

/// A further volume has exactly the archive's file stem and an extension
/// that the volume pattern matches; so a file is a further volume of at most
/// one stem, and two archives that share a volume share their stem.
pub proof fn law_volume_same_stem(container: Seq<char>, other: Seq<char>, candidate: Seq<char>, volume: Seq<char>)
    ensures
        is_volume(container, candidate, volume) <==> file_stem(container) == file_stem(candidate) && extension(
            candidate,
        ) is Some && spec_regex_is_match(volume, extension(candidate)->0),
        is_volume(container, candidate, volume) && is_volume(other, candidate, volume) ==> file_stem(container)
            == file_stem(other),
{
}

/// Whether `candidate`, found beside `container`, is a further volume of it.
pub fn is_volume_of(container: &str, candidate: &str, volume: &Pattern) -> (r: bool)
    ensures
        r == is_volume(container@, candidate@, volume@),
{
    let a = file_stem_of(container);
    let b = file_stem_of(candidate);
    let same = match (&a, &b) {
        (None, None) => true,
        (Some(x), Some(y)) => str_eq(x.as_str(), y.as_str()),
        _ => false,
    };
    if !same {
        return false;
    }
    match extension_of(candidate) {
        Some(e) => regex_is_match(volume, e.as_str()),
        None => false,
    }
}

} // verus!
