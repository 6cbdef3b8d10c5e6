//! The archive scanner's decode-and-filter step.
//!
//! The container format itself is parsed by an outside collaborator; it
//! hands this module the raw listing of one archive (name bytes, size,
//! modification time, directory flag, in entry order).  This module skips
//! directory markers — directories are rebuilt structurally from path
//! segments — and decodes every file's name bytes with the configured
//! legacy encoding, yielding the scanner's result for that archive.

use vstd::prelude::*;
use crate::types::{File, FileInfo, RawEntry};

verus! {

/// The text (as UTF-8 bytes) that the decode entry point produces for the
/// given raw name bytes under the configured legacy encoding.  The
/// decoding is a pure function of the bytes alone; unrepresentable input
/// degrades to a replacement character and never fails.  Input that begins
/// with a byte-order mark is decoded per that mark, as the outside
/// function defines.
pub uninterp spec fn decoded_of(raw: Seq<u8>) -> Seq<u8>;

/// Relies on encoding_rs::Encoding::decode with the IBM866 encoding: it
/// always yields a string (with BOM sniffing, then replacement-policy
/// decoding) and depends on the input bytes alone.
#[verifier::external_body]
fn decode_ibm866(input: &[u8]) -> (r: Vec<u8>)
    ensures
        r@ == decoded_of(input@),
        input@.len() == 0 ==> r@.len() == 0,
{
    let (text, _, _) = encoding_rs::IBM866.decode(input);
    text.into_owned().into_bytes()
}

/// Spec-level image of one scanned file, over plain values.
pub struct FileView {
    pub file_id: int,
    pub path: Seq<u8>,
    pub time: u64,
    pub size: u64,
}

/// The view of an executable scanned file.
pub open spec fn file_view(f: File) -> FileView {
    FileView { file_id: f.file_id as int, path: f.path@, time: f.info.time, size: f.info.size }
}

/// What scanning a raw listing must produce: every non-directory entry, in
/// listing order, carrying its position in the full listing as its entry id
/// and its decoded name as its path.
pub open spec fn scan_spec(raws: Seq<RawEntry>) -> Seq<FileView>
    decreases raws.len(),
{
    if raws.len() == 0 {
        Seq::empty()
    } else {
        let prefix = scan_spec(raws.drop_last());
        let last = raws.last();
        if last.is_dir {
            prefix
        } else {
            prefix.push(
                FileView {
                    file_id: raws.len() - 1,
                    path: decoded_of(last.name_raw@),
                    time: last.mtime,
                    size: last.size,
                },
            )
        }
    }
}

/// Builds one archive's scan result from its raw listing: directory markers
/// are dropped, names are decoded, entry ids record the position within the
/// archive.
pub struct WinbackupTreeBuilder {}

impl WinbackupTreeBuilder {
    /// Decodes one archive-native name into text bytes.
    pub fn decode_filename(&self, input: &[u8]) -> (r: Vec<u8>)
        ensures
            r@ == decoded_of(input@),
    {
        decode_ibm866(input)
    }

    /// The scanner's pure step for one archive: from the raw listing to the
    /// sequence of scanned files, exactly as `scan_spec` says.
    pub fn rough_file_info(&self, raws: &Vec<RawEntry>) -> (r: Vec<File>)
        ensures
            r@.map_values(|f: File| file_view(f)) == scan_spec(raws@),
    {
        let mut files: Vec<File> = Vec::new();
        let mut i: usize = 0;
        while i < raws.len()
            invariant
                0 <= i <= raws@.len(),
                files@.map_values(|f: File| file_view(f)) == scan_spec(raws@.take(i as int)),
            decreases raws@.len() - i,
        {
            let entry = &raws[i];
            assert(raws@.take(i + 1).drop_last() =~= raws@.take(i as int));
            assert(raws@.take(i + 1).last() == raws@[i as int]);
            if !entry.is_dir {
                let name = self.decode_filename(entry.name_raw.as_slice());
                let f = File {
                    file_id: i,
                    path: name,
                    info: FileInfo { time: entry.mtime, size: entry.size },
                };
                files.push(f);
                assert(files@.map_values(|f: File| file_view(f)) =~= scan_spec(
                    raws@.take(i + 1),
                ));
            } else {
                assert(files@.map_values(|f: File| file_view(f)) =~= scan_spec(
                    raws@.take(i + 1),
                ));
            }
            i += 1;
        }
        assert(raws@.take(raws@.len() as int) =~= raws@);
        files
    }
}

/// Seconds since the Unix epoch of a civil date and time: days from the
/// civil calendar (era/year-of-era/day-of-year form) times a day's
/// seconds, plus the time of day.  This defines the totally ordered
/// modification instant over the archive format's date range.
pub open spec fn spec_timestamp(
    year: int,
    month: int,
    day: int,
    hour: int,
    minute: int,
    second: int,
) -> int {
    let y = if month <= 2 {
        year - 1
    } else {
        year
    };
    let era = y / 400;
    let yoe = y - era * 400;
    let doy = (153 * (month + (if month > 2 {
        -3int
    } else {
        9int
    })) + 2) / 5 + day - 1;
    let doe = yoe * 365 + yoe / 4 - yoe / 100 + doy;
    (era * 146097 + doe - 719468) * 86400 + hour * 3600 + minute * 60 + second
}

/// Seconds since the Unix epoch of a civil date and time, exactly as
/// `spec_timestamp` says, over the archive format's date range.
pub fn timestamp(year: u64, month: u64, day: u64, hour: u64, minute: u64, second: u64) -> (r:
    u64)
    requires
        1980 <= year <= 2107,
        1 <= month <= 12,
        1 <= day <= 31,
        hour < 24,
        minute < 60,
        second < 60,
    ensures
        r as int == spec_timestamp(
            year as int,
            month as int,
            day as int,
            hour as int,
            minute as int,
            second as int,
        ),
{
    let y: u64 = if month <= 2 {
        year - 1
    } else {
        year
    };
    let era: u64 = y / 400;
    proof {
        vstd::arithmetic::div_mod::lemma_fundamental_div_mod(y as int, 400);
        assert(400 * (y as int / 400) <= y as int);
        assert(4 <= (era as int) && (era as int) <= 5);
    }
    let yoe: u64 = y - era * 400;
    proof {
        assert(y as int - era as int * 400 == y as int % 400);
        vstd::arithmetic::div_mod::lemma_mod_bound(y as int, 400);
        assert(0 <= (yoe as int) && (yoe as int) < 400);
        if era == 4 {
            assert(yoe as int >= 379);
        }
    }
    let mp: u64 = if month > 2 {
        month - 3
    } else {
        month + 9
    };
    proof {
        assert(mp <= 11);
        vstd::arithmetic::div_mod::lemma_fundamental_div_mod((153 * mp + 2) as int, 5);
        vstd::arithmetic::div_mod::lemma_mod_bound((153 * mp + 2) as int, 5);
        assert((153 * mp + 2) as int / 5 <= 337);
    }
    let doy: u64 = (153 * mp + 2) / 5 + day - 1;
    proof {
        assert(doy <= 367);
        vstd::arithmetic::div_mod::lemma_fundamental_div_mod(yoe as int, 4);
        vstd::arithmetic::div_mod::lemma_mod_bound(yoe as int, 4);
        vstd::arithmetic::div_mod::lemma_fundamental_div_mod(yoe as int, 100);
        vstd::arithmetic::div_mod::lemma_mod_bound(yoe as int, 100);
        assert(yoe as int / 100 <= yoe as int / 4 + yoe as int * 365);
        assert(yoe as int / 4 <= 99);
        assert(yoe as int / 100 <= 3);
    }
    let doe: u64 = yoe * 365 + yoe / 4 - yoe / 100 + doy;
    proof {
        if era == 4 {
            assert(yoe as int * 365 >= 379 * 365);
            assert(doe as int >= 379 * 365 - 3);
        }
        assert(era as int * 146097 + doe as int >= 719468);
        assert(doe as int <= 399 * 365 + 99 + 367);
        assert(era as int * 146097 <= 5 * 146097);
    }
    let days: u64 = era * 146097 + doe - 719468;
    days * 86400 + hour * 3600 + minute * 60 + second
}

} // verus!
