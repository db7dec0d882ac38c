//! Backup file naming. A backup of `items.csv` taken at a given
//! moment is named `items_YYYYMMDDHHMMSS.csv`: the source name's
//! stem, the compact second-precision timestamp, and the source
//! name's extension. A source name without an extension falls back
//! to `bak`; an empty source name falls back to the stem `file`.
//! Every backup name starts with its stem, which is what ties a
//! backup to its source for retention.

use vstd::prelude::*;
use crate::stamp::{Stamp, stamp_valid, compact_stamp_text, format_compact_stamp};
use crate::text::{is_prefix_of, string_to_chars, chars_to_string};

verus! {

/// Index of the last dot in a file name, or -1 when there is none.
pub open spec fn last_dot(name: Seq<char>) -> int
    decreases name.len(),
{
    if name.len() == 0 {
        -1
    } else if name.last() == '.' {
        name.len() - 1
    } else {
        last_dot(name.drop_last())
    }
}

/// The stem of a file name: the part before the last dot. A name
/// without a dot, or with only a leading dot, is its own stem; an
/// empty name gets the default stem `file`.
pub open spec fn stem_of(name: Seq<char>) -> Seq<char> {
    if name.len() == 0 {
        "file"@
    } else if last_dot(name) <= 0 {
        name
    } else {
        name.subrange(0, last_dot(name))
    }
}

/// The extension of a file name: the part after the last dot, or
/// the default `bak` when the name is empty or has no extension.
pub open spec fn ext_of(name: Seq<char>) -> Seq<char> {
    if name.len() == 0 || last_dot(name) <= 0 {
        "bak"@
    } else {
        name.subrange(last_dot(name) + 1, name.len() as int)
    }
}

/// Splits a file name into its stem and extension, with the
/// defaults `file` and `bak` where either is missing.
pub fn split_name(name: &str) -> (r: (String, String))
    ensures
        r.0@ == stem_of(name@),
        r.1@ == ext_of(name@),
{
    let chars = string_to_chars(name);
    let n = chars.len();
    if n == 0 {
        return (String::from_str("file"), String::from_str("bak"));
    }
    let mut dot: Option<usize> = None;
    let mut i: usize = 0;
    proof {
        assert(chars@.subrange(0, 0) =~= Seq::<char>::empty());
    }
    while i < n
        invariant
            i <= n,
            n == chars@.len(),
            chars@ == name@,
            match dot {
                Some(d) => d < i && last_dot(chars@.subrange(0, i as int)) == d as int,
                None => last_dot(chars@.subrange(0, i as int)) == -1,
            },
        decreases n - i,
    {
        proof {
            let pre = chars@.subrange(0, i as int + 1);
            assert(pre.drop_last() =~= chars@.subrange(0, i as int));
            assert(pre.last() == chars@[i as int]);
        }
        if chars[i] == '.' {
            dot = Some(i);
        }
        i = i + 1;
    }
    proof {
        assert(chars@.subrange(0, n as int) =~= chars@);
    }
    match dot {
        Some(d) => {
            if d == 0 {
                (chars_to_string(&chars), String::from_str("bak"))
            } else {
                let mut stem: Vec<char> = Vec::new();
                let mut j: usize = 0;
                while j < d
                    invariant
                        j <= d,
                        d < n,
                        n == chars@.len(),
                        stem@ == chars@.subrange(0, j as int),
                    decreases d - j,
                {
                    stem.push(chars[j]);
                    j = j + 1;
                    proof {
                        assert(stem@ =~= chars@.subrange(0, j as int));
                    }
                }
                let mut ext: Vec<char> = Vec::new();
                let mut k: usize = d + 1;
                proof {
                    assert(ext@ =~= chars@.subrange(d as int + 1, d as int + 1));
                }
                while k < n
                    invariant
                        d + 1 <= k <= n,
                        d < n,
                        n == chars@.len(),
                        ext@ == chars@.subrange(d as int + 1, k as int),
                    decreases n - k,
                {
                    ext.push(chars[k]);
                    k = k + 1;
                    proof {
                        assert(ext@ =~= chars@.subrange(d as int + 1, k as int));
                    }
                }
                (chars_to_string(&stem), chars_to_string(&ext))
            }
        },
        None => (chars_to_string(&chars), String::from_str("bak")),
    }
}

/// The backup name for a stem, an extension and a moment:
/// `{stem}_{timestamp}.{ext}`.
pub open spec fn backup_name_spec(stem: Seq<char>, ext: Seq<char>, ts: Stamp) -> Seq<char> {
    stem + seq!['_'] + compact_stamp_text(ts) + seq!['.'] + ext
}

/// Builds the backup file name for a stem, an extension and a
/// moment.
pub fn backup_file_name(stem: &str, ext: &str, ts: &Stamp) -> (r: String)
    requires
        stamp_valid(*ts),
    ensures
        r@ == backup_name_spec(stem@, ext@, *ts),
{
    let mut out = string_to_chars(stem);
    out.push('_');
    let mut t = format_compact_stamp(ts);
    out.append(&mut t);
    out.push('.');
    let mut e = string_to_chars(ext);
    out.append(&mut e);
    proof {
        assert(out@ =~= backup_name_spec(stem@, ext@, *ts));
    }
    chars_to_string(&out)
}

/// A backup name starts with its stem: every backup the manager
/// creates is a retention candidate of exactly its own source.
pub proof fn lemma_backup_name_has_stem(stem: Seq<char>, ext: Seq<char>, ts: Stamp)
    ensures
        is_prefix_of(stem, backup_name_spec(stem, ext, ts)),
{
    assert(backup_name_spec(stem, ext, ts).subrange(0, stem.len() as int) =~= stem);
}

} // verus!
