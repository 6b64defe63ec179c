//! The playback configuration: a whitespace-tokenized key/value text.
//! After a recognized key (`video:`, `width:`, `height:`, `fps:`,
//! `volume:`) the next token is its value; unrecognized tokens are
//! skipped; a later occurrence of a key overwrites an earlier one.
//! Fractional values (frame rate, volume) are held in thousandths, so an
//! `fps` of `30` is stored as `30_000` and a `volume` of `0.1` as `100`.
use vstd::prelude::*;
use crate::digits::{all_digits, dec_val, is_digit, parse_dec, read_digit};

verus! {

/// A whitespace character of the config format.
pub open spec fn is_space(c: char) -> bool {
    c == ' ' || c == '\t' || c == '\n' || c == '\r' || c == '\u{000C}'
}

/// Where the token starting at `i` ends: the first position at or after
/// `i` holding whitespace, or the end of the text.
pub open spec fn token_end(s: Seq<char>, i: int) -> int
    decreases s.len() - i,
{
    if i < 0 || i >= s.len() || is_space(s[i]) {
        i
    } else {
        token_end(s, i + 1)
    }
}

proof fn lemma_token_end(s: Seq<char>, i: int)
    requires
        0 <= i <= s.len(),
    ensures
        i <= token_end(s, i) <= s.len(),
    decreases s.len() - i,
{
    if i < s.len() && !is_space(s[i]) {
        lemma_token_end(s, i + 1);
    }
}

proof fn lemma_token_end_is(s: Seq<char>, i: int, j: int)
    requires
        0 <= i <= j <= s.len(),
        forall|k: int| i <= k < j ==> !is_space(#[trigger] s[k]),
        j == s.len() || is_space(s[j]),
    ensures
        token_end(s, i) == j,
    decreases j - i,
{
    if i < j {
        lemma_token_end_is(s, i + 1, j);
    }
}

/// The whitespace-separated tokens of `s` from position `i` on.
pub open spec fn tokenize_from(s: Seq<char>, i: int) -> Seq<Seq<char>>
    decreases s.len() - i,
        via tokenize_from_decreases
{
    if i < 0 || i >= s.len() {
        Seq::empty()
    } else if is_space(s[i]) {
        tokenize_from(s, i + 1)
    } else {
        seq![s.subrange(i, token_end(s, i))] + tokenize_from(s, token_end(s, i))
    }
}

#[via_fn]
proof fn tokenize_from_decreases(s: Seq<char>, i: int) {
    if 0 <= i < s.len() && !is_space(s[i]) {
        lemma_token_end(s, i + 1);
    }
}

/// The whitespace-separated tokens of `s`, in order.
pub open spec fn tokenize(s: Seq<char>) -> Seq<Seq<char>> {
    tokenize_from(s, 0)
}

fn is_space_char(c: char) -> (r: bool)
    ensures
        r == is_space(c),
{
    c == ' ' || c == '\t' || c == '\n' || c == '\r' || c == '\u{000C}'
}

fn chars_eq(a: &Vec<char>, b: &Vec<char>) -> (r: bool)
    ensures
        r == (a@ == b@),
{
    if a.len() != b.len() {
        return false;
    }
    let mut i: usize = 0;
    while i < a.len()
        invariant
            a@.len() == b@.len(),
            i <= a@.len(),
            forall|j: int| 0 <= j < i ==> a@[j] == b@[j],
        decreases a@.len() - i,
    {
        if a[i] != b[i] {
            return false;
        }
        i += 1;
    }
    proof {
        assert(a@ =~= b@);
    }
    true
}

fn tokenize_chars(s: &Vec<char>) -> (toks: Vec<Vec<char>>)
    ensures
        toks.deep_view() == tokenize(s@),
{
    let n = s.len();
    let mut toks: Vec<Vec<char>> = Vec::new();
    let mut i: usize = 0;
    while i < n
        invariant
            i <= n,
            n == s@.len(),
            tokenize(s@) == toks.deep_view() + tokenize_from(s@, i as int),
        decreases n - i,
    {
        if is_space_char(s[i]) {
            i += 1;
        } else {
            let ghost pre = toks.deep_view();
            let start = i;
            let mut tok: Vec<char> = Vec::new();
            while i < n && !is_space_char(s[i])
                invariant
                    start <= i <= n,
                    n == s@.len(),
                    forall|k: int| start <= k < i ==> !is_space(#[trigger] s@[k]),
                    tok@ == s@.subrange(start as int, i as int),
                decreases n - i,
            {
                tok.push(s[i]);
                proof {
                    assert(tok@ =~= s@.subrange(start as int, i + 1));
                }
                i += 1;
            }
            proof {
                lemma_token_end_is(s@, start as int, i as int);
            }
            toks.push(tok);
            proof {
                assert(toks.deep_view() =~~= pre.push(s@.subrange(start as int, i as int)));
                assert(pre.push(s@.subrange(start as int, i as int)) + tokenize_from(s@, i as int)
                    =~~= pre + tokenize_from(s@, start as int));
            }
        }
    }
    proof {
        assert(toks.deep_view() + tokenize_from(s@, i as int) =~~= toks.deep_view());
    }
    toks
}

/// Position of the first '.' in `t` at or after `i`, or the end.
pub open spec fn dot_end(t: Seq<char>, i: int) -> int
    decreases t.len() - i,
{
    if i < 0 || i >= t.len() || t[i] == '.' {
        i
    } else {
        dot_end(t, i + 1)
    }
}

proof fn lemma_dot_end_is(t: Seq<char>, i: int, j: int)
    requires
        0 <= i <= j <= t.len(),
        forall|k: int| i <= k < j ==> #[trigger] t[k] != '.',
        j == t.len() || t[j] == '.',
    ensures
        dot_end(t, i) == j,
    decreases j - i,
{
    if i < j {
        lemma_dot_end_is(t, i + 1, j);
    }
}

/// The integer part of a decimal token: everything before the first '.'.
pub open spec fn int_part(t: Seq<char>) -> Seq<char> {
    t.subrange(0, dot_end(t, 0))
}

/// The fractional part: everything after the first '.'; empty without one.
pub open spec fn frac_part(t: Seq<char>) -> Seq<char> {
    if dot_end(t, 0) < t.len() {
        t.subrange(dot_end(t, 0) + 1, t.len() as int)
    } else {
        Seq::empty()
    }
}

/// The value of a fractional digit string in thousandths, truncated past
/// the third digit.
pub open spec fn frac_thousandths(f: Seq<char>) -> nat {
    if f.len() == 0 {
        0
    } else if f.len() == 1 {
        dec_val(f) * 100
    } else if f.len() == 2 {
        dec_val(f) * 10
    } else {
        dec_val(f.take(3))
    }
}

/// A plain decimal token: digits around at most one point, at least one
/// digit in all.
pub open spec fn decimal_ok(t: Seq<char>) -> bool {
    &&& all_digits(int_part(t))
    &&& all_digits(frac_part(t))
    &&& int_part(t).len() + frac_part(t).len() >= 1
}

/// The token's value in thousandths, truncated to that precision.
pub open spec fn decimal_thousandths(t: Seq<char>) -> nat {
    dec_val(int_part(t)) * 1000 + frac_thousandths(frac_part(t))
}

proof fn lemma_small_dec_val(s: Seq<char>)
    requires
        all_digits(s),
        s.len() <= 3,
    ensures
        dec_val(s) <= 999,
        s.len() <= 2 ==> dec_val(s) <= 99,
        s.len() <= 1 ==> dec_val(s) <= 9,
    decreases s.len(),
{
    if s.len() > 0 {
        assert forall|i: int| 0 <= i < s.drop_last().len() implies is_digit(
            #[trigger] s.drop_last()[i],
        ) by {
            assert(s.drop_last()[i] == s[i]);
        }
        lemma_small_dec_val(s.drop_last());
    }
}

/// Parses a plain decimal token (digits, at most one point) as a value in
/// thousandths, truncated past the third fractional digit. Refuses exactly
/// the tokens that are not such a decimal or whose value overflows.
pub fn parse_thousandths(t: &Vec<char>) -> (r: Option<u64>)
    ensures
        match r {
            Some(v) => decimal_ok(t@) && v == decimal_thousandths(t@),
            None => !decimal_ok(t@) || decimal_thousandths(t@) > u64::MAX,
        },
{
    let n = t.len();
    let mut dp: usize = 0;
    while dp < n && t[dp] != '.'
        invariant
            dp <= n,
            n == t@.len(),
            forall|k: int| 0 <= k < dp ==> #[trigger] t@[k] != '.',
        decreases n - dp,
    {
        dp += 1;
    }
    proof {
        lemma_dot_end_is(t@, 0, dp as int);
    }
    let mut ip: Vec<char> = Vec::new();
    let mut i: usize = 0;
    while i < dp
        invariant
            i <= dp,
            dp <= n,
            n == t@.len(),
            ip@ == t@.subrange(0, i as int),
        decreases dp - i,
    {
        ip.push(t[i]);
        proof {
            assert(ip@ =~= t@.subrange(0, i + 1));
        }
        i += 1;
    }
    let mut fp: Vec<char> = Vec::new();
    if dp < n {
        let mut j: usize = dp + 1;
        while j < n
            invariant
                dp + 1 <= j <= n,
                n == t@.len(),
                fp@ == t@.subrange(dp + 1, j as int),
            decreases n - j,
        {
            fp.push(t[j]);
            proof {
                assert(fp@ =~= t@.subrange(dp + 1, j + 1));
            }
            j += 1;
        }
    }
    proof {
        assert(ip@ =~= int_part(t@));
        assert(fp@ =~= frac_part(t@));
    }
    if ip.len() == 0 && fp.len() == 0 {
        return None;
    }
    let mut k: usize = 0;
    while k < fp.len()
        invariant
            k <= fp@.len(),
            fp@ == frac_part(t@),
            forall|j: int| 0 <= j < k ==> is_digit(#[trigger] fp@[j]),
        decreases fp@.len() - k,
    {
        if read_digit(fp[k]).is_none() {
            return None;
        }
        k += 1;
    }
    let fv: u64 = if fp.len() == 0 {
        0u64
    } else if fp.len() == 1 {
        match parse_dec(&fp, 9) {
            Some(v) => v * 100,
            None => {
                proof {
                    lemma_small_dec_val(fp@);
                    assert(false);
                }
                0u64
            },
        }
    } else if fp.len() == 2 {
        match parse_dec(&fp, 99) {
            Some(v) => v * 10,
            None => {
                proof {
                    lemma_small_dec_val(fp@);
                    assert(false);
                }
                0u64
            },
        }
    } else {
        let mut f3: Vec<char> = Vec::new();
        f3.push(fp[0]);
        f3.push(fp[1]);
        f3.push(fp[2]);
        proof {
            assert(f3@ =~= fp@.take(3));
            assert forall|j: int| 0 <= j < f3@.len() implies is_digit(#[trigger] f3@[j]) by {
                assert(f3@[j] == fp@[j]);
            }
        }
        match parse_dec(&f3, 999) {
            Some(v) => v,
            None => {
                proof {
                    lemma_small_dec_val(f3@);
                    assert(false);
                }
                0u64
            },
        }
    };
    proof {
        assert(fv == frac_thousandths(frac_part(t@)));
    }
    if ip.len() == 0 {
        return Some(fv);
    }
    match parse_dec(&ip, (u64::MAX - fv) / 1000) {
        Some(v) => {
            proof {
                crate::digits::lemma_scaled_bound(v as int, fv as int, 1000, u64::MAX as int);
            }
            Some(v * 1000 + fv)
        },
        None => {
            proof {
                if ip@.len() > 0 && all_digits(ip@) {
                    crate::digits::lemma_scaled_bound(
                        dec_val(ip@) as int,
                        fv as int,
                        1000,
                        u64::MAX as int,
                    );
                }
            }
            None
        },
    }
}

/// A failure while reading the config text.
#[derive(Clone, Copy, Debug, PartialEq, Eq, Structural)]
pub enum ConfigError {
    /// A recognized key stands as the last token, with no value after it.
    MissingValue,
    /// A numeric value is not a plain decimal of its expected type, or
    /// does not fit its field.
    BadNumber,
}

/// Playback parameters. Fields not named by the config text keep their
/// zero or empty default.
pub struct Config {
    pub video: String,
    pub width: usize,
    pub height: usize,
    pub fps_thousandths: u64,
    pub volume_thousandths: u64,
}

/// The mathematical content of a `Config`.
pub struct ConfigModel {
    pub video: Seq<char>,
    pub width: int,
    pub height: int,
    pub fps_thousandths: int,
    pub volume_thousandths: int,
}

impl View for Config {
    type V = ConfigModel;

    open spec fn view(&self) -> ConfigModel {
        ConfigModel {
            video: self.video@,
            width: self.width as int,
            height: self.height as int,
            fps_thousandths: self.fps_thousandths as int,
            volume_thousandths: self.volume_thousandths as int,
        }
    }
}

/// The state parsing starts from: zero and empty throughout, as for a
/// config text that names no keys.
pub open spec fn empty_model() -> ConfigModel {
    ConfigModel {
        video: Seq::empty(),
        width: 0,
        height: 0,
        fps_thousandths: 0,
        volume_thousandths: 0,
    }
}

/// A token that may stand for a whole number field of the given maximum.
pub open spec fn uint_token_ok(t: Seq<char>, max: int) -> bool {
    t.len() > 0 && all_digits(t) && dec_val(t) <= max
}

/// A token that may stand for a fractional field held in thousandths.
pub open spec fn decimal_token_ok(t: Seq<char>) -> bool {
    decimal_ok(t) && decimal_thousandths(t) <= u64::MAX
}

/// Reading the token stream from position `i` in state `m`: each
/// recognized key takes the following token as its value and overwrites
/// the field; every token, a value too, is examined as a key in its turn.
pub open spec fn parse_toks(toks: Seq<Seq<char>>, i: int, m: ConfigModel) -> Result<
    ConfigModel,
    ConfigError,
>
    decreases toks.len() - i,
{
    if i < 0 || i >= toks.len() {
        Ok(m)
    } else if toks[i] == "video:"@ {
        if i + 1 >= toks.len() {
            Err(ConfigError::MissingValue)
        } else {
            parse_toks(toks, i + 1, ConfigModel { video: toks[i + 1], ..m })
        }
    } else if toks[i] == "width:"@ {
        if i + 1 >= toks.len() {
            Err(ConfigError::MissingValue)
        } else if !uint_token_ok(toks[i + 1], usize::MAX as int) {
            Err(ConfigError::BadNumber)
        } else {
            parse_toks(toks, i + 1, ConfigModel { width: dec_val(toks[i + 1]) as int, ..m })
        }
    } else if toks[i] == "height:"@ {
        if i + 1 >= toks.len() {
            Err(ConfigError::MissingValue)
        } else if !uint_token_ok(toks[i + 1], usize::MAX as int) {
            Err(ConfigError::BadNumber)
        } else {
            parse_toks(toks, i + 1, ConfigModel { height: dec_val(toks[i + 1]) as int, ..m })
        }
    } else if toks[i] == "fps:"@ {
        if i + 1 >= toks.len() {
            Err(ConfigError::MissingValue)
        } else if !decimal_token_ok(toks[i + 1]) {
            Err(ConfigError::BadNumber)
        } else {
            parse_toks(
                toks,
                i + 1,
                ConfigModel { fps_thousandths: decimal_thousandths(toks[i + 1]) as int, ..m },
            )
        }
    } else if toks[i] == "volume:"@ {
        if i + 1 >= toks.len() {
            Err(ConfigError::MissingValue)
        } else if !decimal_token_ok(toks[i + 1]) {
            Err(ConfigError::BadNumber)
        } else {
            parse_toks(
                toks,
                i + 1,
                ConfigModel { volume_thousandths: decimal_thousandths(toks[i + 1]) as int, ..m },
            )
        }
    } else {
        parse_toks(toks, i + 1, m)
    }
}

/// What loading a config text yields.
pub open spec fn spec_parse(text: Seq<char>) -> Result<ConfigModel, ConfigError> {
    parse_toks(tokenize(text), 0, empty_model())
}

/// Loads a config from its text: whitespace tokens, each recognized key
/// followed by its value, unrecognized tokens skipped, missing fields left
/// zero or empty.
pub fn parse_config(text: &str) -> (r: Result<Config, ConfigError>)
    ensures
        match r {
            Ok(c) => spec_parse(text@) == Ok::<ConfigModel, ConfigError>(c@),
            Err(e) => spec_parse(text@) == Err::<ConfigModel, ConfigError>(e),
        },
{
    let cs = crate::text::str_to_chars(text);
    let toks = tokenize_chars(&cs);
    let key_video = crate::text::str_to_chars("video:");
    let key_width = crate::text::str_to_chars("width:");
    let key_height = crate::text::str_to_chars("height:");
    let key_fps = crate::text::str_to_chars("fps:");
    let key_volume = crate::text::str_to_chars("volume:");
    let ghost ts = tokenize(text@);
    let mut c = Config {
        video: String::new(),
        width: 0,
        height: 0,
        fps_thousandths: 0,
        volume_thousandths: 0,
    };
    proof {
        assert(c@.video =~= empty_model().video);
    }
    let n = toks.len();
    let mut i: usize = 0;
    while i < n
        invariant
            i <= n,
            n == toks@.len(),
            ts == tokenize(text@),
            toks.deep_view() == ts,
            key_video@ == "video:"@,
            key_width@ == "width:"@,
            key_height@ == "height:"@,
            key_fps@ == "fps:"@,
            key_volume@ == "volume:"@,
            parse_toks(ts, 0, empty_model()) == parse_toks(ts, i as int, c@),
        decreases n - i,
    {
        let t = &toks[i];
        proof {
            assert(t@ == ts[i as int]);
        }
        if chars_eq(t, &key_video) {
            if i + 1 >= n {
                return Err(ConfigError::MissingValue);
            }
            proof {
                assert(toks@[i + 1]@ == ts[i + 1]);
            }
            c.video = crate::text::chars_to_string(&toks[i + 1]);
        } else if chars_eq(t, &key_width) {
            if i + 1 >= n {
                return Err(ConfigError::MissingValue);
            }
            proof {
                assert(toks@[i + 1]@ == ts[i + 1]);
            }
            match parse_dec(&toks[i + 1], usize::MAX as u64) {
                Some(v) => {
                    c.width = v as usize;
                },
                None => {
                    return Err(ConfigError::BadNumber);
                },
            }
        } else if chars_eq(t, &key_height) {
            if i + 1 >= n {
                return Err(ConfigError::MissingValue);
            }
            proof {
                assert(toks@[i + 1]@ == ts[i + 1]);
            }
            match parse_dec(&toks[i + 1], usize::MAX as u64) {
                Some(v) => {
                    c.height = v as usize;
                },
                None => {
                    return Err(ConfigError::BadNumber);
                },
            }
        } else if chars_eq(t, &key_fps) {
            if i + 1 >= n {
                return Err(ConfigError::MissingValue);
            }
            proof {
                assert(toks@[i + 1]@ == ts[i + 1]);
            }
            match parse_thousandths(&toks[i + 1]) {
                Some(v) => {
                    c.fps_thousandths = v;
                },
                None => {
                    return Err(ConfigError::BadNumber);
                },
            }
        } else if chars_eq(t, &key_volume) {
            if i + 1 >= n {
                return Err(ConfigError::MissingValue);
            }
            proof {
                assert(toks@[i + 1]@ == ts[i + 1]);
            }
            match parse_thousandths(&toks[i + 1]) {
                Some(v) => {
                    c.volume_thousandths = v;
                },
                None => {
                    return Err(ConfigError::BadNumber);
                },
            }
        }
        i += 1;
    }
    Ok(c)
}

/// The config text written when none exists: the fixed defaults.
pub fn default_config_text() -> (r: String)
    ensures
        r@ == "video: bad_apple.mp4\nwidth: 100\nheight: 20\nfps: 30\nvolume: 0.1\n"@,
{
    "video: bad_apple.mp4\nwidth: 100\nheight: 20\nfps: 30\nvolume: 0.1\n".to_owned()
}

} // verus!
