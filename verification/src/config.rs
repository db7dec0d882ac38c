//! Configuration values the core operates under. They are plain
//! data: resolving them from disk or from the platform's data
//! directory is the caller's business, and every core operation
//! receives them as explicit arguments — there is no shared mutable
//! configuration state.

use vstd::prelude::*;
use crate::text::{is_i32_text, int_text_value, parse_i32_chars, string_to_chars};

verus! {

/// Where the record files and the backup directory live.
#[derive(Debug, Clone)]
pub struct PathsConfig {
    pub items_csv: String,
    pub money_csv: String,
    pub backup_dir: String,
}

/// The retention policy: how many newest backups always survive and
/// how many older samples are kept besides.
#[derive(Debug, Clone)]
pub struct BackupConfig {
    pub keep_recent: usize,
    pub keep_historical: usize,
}

/// Presentation settings carried for the callers.
#[derive(Debug, Clone)]
pub struct UiConfig {
    pub date_format: String,
    pub currency_symbol: String,
    pub autosave: bool,
}

/// The selected theme name.
#[derive(Debug, Clone)]
pub struct ThemesConfig {
    pub default: String,
}

/// The resolved settings a program run operates under.
#[derive(Debug, Clone)]
pub struct Settings {
    pub paths: PathsConfig,
    pub backup: BackupConfig,
    pub themes: ThemesConfig,
    pub ui: UiConfig,
}

/// Age thresholds for the scoring heuristic's date factor.
#[derive(Debug, Clone)]
pub struct DateScoring {
    pub recent_days: i64,
    pub mid_days: i64,
}

/// Table colours of one theme.
#[derive(Debug, Clone)]
pub struct TableTheme {
    pub header_bg: String,
    pub header_fg: String,
    pub row_bg: String,
    pub alt_row_bg: String,
}

/// Colours of one theme.
#[derive(Debug, Clone)]
pub struct ThemeEntry {
    pub background: String,
    pub foreground: String,
    pub accent: String,
    pub muted: String,
    pub table: TableTheme,
}

/// The settings a fresh installation starts with: record files
/// under `data/` and backups under `backups/` inside the given base
/// directory, a policy of three recent and three historical
/// backups, the light theme, and minute-precision dates.
pub fn default_settings(base_dir: &str) -> (r: Settings)
    ensures
        r.paths.items_csv@ == base_dir@ + "/data/items.csv"@,
        r.paths.money_csv@ == base_dir@ + "/data/money.csv"@,
        r.paths.backup_dir@ == base_dir@ + "/backups"@,
        r.backup.keep_recent == 3,
        r.backup.keep_historical == 3,
        r.themes.default@ == "light"@,
        r.ui.date_format@ == "%Y-%m-%d %H:%M"@,
        r.ui.currency_symbol@ == "$"@,
        r.ui.autosave == true,
{
    Settings {
        paths: PathsConfig {
            items_csv: String::from_str(base_dir).concat("/data/items.csv"),
            money_csv: String::from_str(base_dir).concat("/data/money.csv"),
            backup_dir: String::from_str(base_dir).concat("/backups"),
        },
        backup: BackupConfig { keep_recent: 3, keep_historical: 3 },
        themes: ThemesConfig { default: String::from_str("light") },
        ui: UiConfig {
            date_format: String::from_str("%Y-%m-%d %H:%M"),
            currency_symbol: String::from_str("$"),
            autosave: true,
        },
    }
}

/// Unicode whitespace (the White_Space characters), as trimmed from
/// the edges of a numeric form field.
pub open spec fn is_space_char(c: char) -> bool {
    ||| ('\u{0009}' <= c && c <= '\u{000D}')
    ||| c == ' '
    ||| c == '\u{0085}'
    ||| c == '\u{00A0}'
    ||| c == '\u{1680}'
    ||| ('\u{2000}' <= c && c <= '\u{200A}')
    ||| c == '\u{2028}'
    ||| c == '\u{2029}'
    ||| c == '\u{202F}'
    ||| c == '\u{205F}'
    ||| c == '\u{3000}'
}

/// Index of the first non-space at or after `i`.
pub open spec fn skip_spaces(s: Seq<char>, i: int) -> int
    decreases s.len() - i,
{
    if 0 <= i < s.len() && is_space_char(s[i]) {
        skip_spaces(s, i + 1)
    } else {
        i
    }
}

/// Index just after the last non-space strictly before `j`.
pub open spec fn rskip_spaces(s: Seq<char>, j: int) -> int
    decreases j,
{
    if 0 < j <= s.len() && is_space_char(s[j - 1]) {
        rskip_spaces(s, j - 1)
    } else {
        j
    }
}

/// The text with whitespace trimmed from both edges.
pub open spec fn trimmed(s: Seq<char>) -> Seq<char> {
    let a = skip_spaces(s, 0);
    let b = rskip_spaces(s, s.len() as int);
    if a >= b {
        Seq::empty()
    } else {
        s.subrange(a, b)
    }
}

proof fn lemma_skip_spaces_bounds(s: Seq<char>, i: int)
    requires
        0 <= i <= s.len(),
    ensures
        i <= skip_spaces(s, i) <= s.len(),
    decreases s.len() - i,
{
    if i < s.len() && is_space_char(s[i]) {
        lemma_skip_spaces_bounds(s, i + 1);
    }
}

proof fn lemma_rskip_spaces_bounds(s: Seq<char>, j: int)
    requires
        0 <= j <= s.len(),
    ensures
        0 <= rskip_spaces(s, j) <= j,
    decreases j,
{
    if 0 < j && is_space_char(s[j - 1]) {
        lemma_rskip_spaces_bounds(s, j - 1);
    }
}

/// Reads a whole-number form field as an `i32`, ignoring leading
/// and trailing Unicode whitespace; the error message names the
/// field. Returns `Ok` exactly when the trimmed text is a decimal
/// integer that fits.
pub fn parse_int(text: &str, field: &str) -> (r: Result<i32, String>)
    ensures
        match r {
            Ok(n) => is_i32_text(trimmed(text@)) && n as int == int_text_value(trimmed(text@)),
            Err(m) => !is_i32_text(trimmed(text@)) && m@ == "Invalid "@ + field@,
        },
{
    let chars = string_to_chars(text);
    let n = chars.len();
    let mut a: usize = 0;
    while a < n && is_space_at(&chars, a)
        invariant
            a <= n,
            n == chars@.len(),
            skip_spaces(chars@, 0) == skip_spaces(chars@, a as int),
        decreases n - a,
    {
        a = a + 1;
    }
    let mut b: usize = n;
    while b > a && is_space_at(&chars, b - 1)
        invariant
            a <= b <= n,
            n == chars@.len(),
            a as int == skip_spaces(chars@, 0),
            rskip_spaces(chars@, n as int) == rskip_spaces(chars@, b as int),
        decreases b,
    {
        b = b - 1;
    }
    proof {
        lemma_skip_spaces_bounds(chars@, a as int);
        lemma_rskip_spaces_bounds(chars@, b as int);
        if b > a {
            assert(!is_space_char(chars@[b as int - 1]) || b == a);
            assert(rskip_spaces(chars@, b as int) == b as int);
        } else {
            assert(skip_spaces(chars@, a as int) == a as int);
            assert(rskip_spaces(chars@, b as int) <= b as int);
            assert(trimmed(chars@) =~= Seq::<char>::empty());
        }
    }
    let mut body: Vec<char> = Vec::new();
    let mut i: usize = a;
    proof {
        assert(body@ =~= chars@.subrange(a as int, a as int));
    }
    while i < b
        invariant
            a <= i <= b <= n,
            n == chars@.len(),
            body@ == chars@.subrange(a as int, i as int),
        decreases b - i,
    {
        body.push(chars[i]);
        i = i + 1;
        proof {
            assert(body@ =~= chars@.subrange(a as int, i as int));
        }
    }
    proof {
        if a < b {
            assert(trimmed(chars@) =~= chars@.subrange(a as int, b as int));
        }
        assert(body@ == trimmed(chars@));
    }
    match parse_i32_chars(&body) {
        Some(v) => Ok(v),
        None => Err(String::from_str("Invalid ").concat(field)),
    }
}

/// Space test at an index, split out so the loop conditions stay
/// plain expressions.
fn is_space_at(s: &Vec<char>, i: usize) -> (r: bool)
    requires
        i < s.len(),
    ensures
        r == is_space_char(s@[i as int]),
{
    let c = s[i];
    ('\u{0009}' <= c && c <= '\u{000D}') || c == ' ' || c == '\u{0085}' || c == '\u{00A0}' || c
        == '\u{1680}' || ('\u{2000}' <= c && c <= '\u{200A}') || c == '\u{2028}' || c == '\u{2029}'
        || c == '\u{202F}' || c == '\u{205F}' || c == '\u{3000}'
}

} // verus!
