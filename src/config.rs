//! The application's settings and their text form: one `key=value` pair per
//! line, read in order, later lines overriding earlier ones.
use vstd::prelude::*;

use crate::text::{
    has_separator, key_spec, parse_u32, parse_u32_spec, split_lines, split_lines_spec,
    split_pair, value_spec, views_of,
};

verus! {

/// Settings of the application.
#[derive(Clone, Copy, Debug, PartialEq, Eq, Structural)]
pub struct Config {
    /// Width of the window in pixels.
    pub horizontal_resolution: u32,
    /// Height of the window in pixels.
    pub vertical_resolution: u32,
    /// Frame rate cap; 0 means uncapped. Read but not enforced.
    pub fps_max: u32,
    /// Held for settings of later versions; no key sets it.
    pub reserved: u32,
}

/// The known keys of the configuration text.
#[derive(Clone, Copy, Debug, PartialEq, Eq, Structural)]
pub enum Setting {
    HorizontalResolution,
    VerticalResolution,
    FpsMax,
}

/// Why a configuration text was refused. Line numbers count from 1.
#[derive(Clone, Copy, Debug, PartialEq, Eq, Structural)]
pub enum ConfigError {
    /// A non-empty line holds no `=`.
    MissingSeparator { line: usize },
    /// The value of a known key is not an unsigned 32-bit decimal number.
    InvalidNumber { line: usize },
}

/// A line whose key is not known: it is reported and otherwise ignored.
#[derive(Debug, PartialEq, Eq)]
pub struct UnknownKey {
    pub line: usize,
    pub key: Vec<u8>,
}

/// The result of reading a configuration text.
#[derive(Debug, PartialEq, Eq)]
pub struct Parsed {
    pub config: Config,
    pub unknown: Vec<UnknownKey>,
}

/// A configuration together with the unknown keys met so far, each with its
/// line number.
pub type ParseState = (Config, Seq<(usize, Seq<u8>)>);

/// The unknown keys as line numbers and bytes.
pub open spec fn warnings_of(v: Seq<UnknownKey>) -> Seq<(usize, Seq<u8>)> {
    v.map_values(|u: UnknownKey| (u.line, u.key@))
}

/// `horizontal_resolution`
pub open spec fn horizontal_key() -> Seq<u8> {
    seq![104u8, 111, 114, 105, 122, 111, 110, 116, 97, 108, 95, 114, 101, 115, 111, 108, 117, 116, 105, 111, 110]
}

/// `vertical_resolution`
pub open spec fn vertical_key() -> Seq<u8> {
    seq![118u8, 101, 114, 116, 105, 99, 97, 108, 95, 114, 101, 115, 111, 108, 117, 116, 105, 111, 110]
}

/// `fps_max`
pub open spec fn fps_max_key() -> Seq<u8> {
    seq![102u8, 112, 115, 95, 109, 97, 120]
}

/// The setting that `key` names, if any.
pub open spec fn setting_of(key: Seq<u8>) -> Option<Setting> {
    if key == horizontal_key() {
        Some(Setting::HorizontalResolution)
    } else if key == vertical_key() {
        Some(Setting::VerticalResolution)
    } else if key == fps_max_key() {
        Some(Setting::FpsMax)
    } else {
        None
    }
}

/// `c` with setting `s` set to `v`.
pub open spec fn with_setting(c: Config, s: Setting, v: u32) -> Config {
    match s {
        Setting::HorizontalResolution => Config { horizontal_resolution: v, ..c },
        Setting::VerticalResolution => Config { vertical_resolution: v, ..c },
        Setting::FpsMax => Config { fps_max: v, ..c },
    }
}

/// The configuration that fields absent from the text keep: small non-zero
/// resolutions, no frame cap.
pub open spec fn placeholder_config() -> Config {
    Config { horizontal_resolution: 10, vertical_resolution: 10, fps_max: 0, reserved: 0 }
}

/// The effect of line `number` on the state: an empty line changes nothing,
/// a line without `=` is refused, a known key takes its value, which must be
/// a number, and an unknown key is recorded.
pub open spec fn step_line(acc: ParseState, line: Seq<u8>, number: usize) -> Result<
    ParseState,
    ConfigError,
> {
    if line.len() == 0 {
        Ok(acc)
    } else if !has_separator(line) {
        Err(ConfigError::MissingSeparator { line: number })
    } else {
        match setting_of(key_spec(line)) {
            None => Ok((acc.0, acc.1.push((number, key_spec(line))))),
            Some(s) => match parse_u32_spec(value_spec(line)) {
                None => Err(ConfigError::InvalidNumber { line: number }),
                Some(v) => Ok((with_setting(acc.0, s, v), acc.1)),
            },
        }
    }
}

/// The lines read in order from the placeholder configuration; the first
/// refused line ends the reading.
pub open spec fn parse_lines_spec(lines: Seq<Seq<u8>>) -> Result<ParseState, ConfigError>
    decreases lines.len(),
{
    if lines.len() == 0 {
        Ok((placeholder_config(), Seq::empty()))
    } else {
        match parse_lines_spec(lines.drop_last()) {
            Err(e) => Err(e),
            Ok(acc) => step_line(acc, lines.last(), lines.len() as usize),
        }
    }
}

/// What reading the configuration text `t` gives.
pub open spec fn parse_spec(t: Seq<u8>) -> Result<ParseState, ConfigError> {
    parse_lines_spec(split_lines_spec(t))
}

/// `r` holds what `spec` describes.
pub open spec fn matches_outcome(r: Result<Parsed, ConfigError>, spec: Result<ParseState, ConfigError>) -> bool {
    match r {
        Ok(p) => spec == Ok::<ParseState, ConfigError>((p.config, warnings_of(p.unknown@))),
        Err(e) => spec == Err::<ParseState, ConfigError>(e),
    }
}

/// Two outcomes agree on the configuration, or on the error: unknown keys
/// are not compared.
pub open spec fn same_config(a: Result<ParseState, ConfigError>, b: Result<ParseState, ConfigError>) -> bool {
    match (a, b) {
        (Ok(x), Ok(y)) => x.0 == y.0,
        (Err(e), Err(f)) => e == f,
        _ => false,
    }
}

/// Lines that follow two prefixes of one length that agree on the
/// configuration keep the two outcomes in agreement.
proof fn lemma_same_config_extend(x: Seq<Seq<u8>>, y: Seq<Seq<u8>>, post: Seq<Seq<u8>>)
    requires
        x.len() == y.len(),
        same_config(parse_lines_spec(x), parse_lines_spec(y)),
    ensures
        same_config(parse_lines_spec(x + post), parse_lines_spec(y + post)),
    decreases post.len(),
{
    if post.len() == 0 {
        assert(x + post =~= x);
        assert(y + post =~= y);
    } else {
        let p = post.drop_last();
        lemma_same_config_extend(x, y, p);
        assert((x + post).drop_last() =~= x + p);
        assert((y + post).drop_last() =~= y + p);
        assert((x + post).last() == post.last());
        assert((y + post).last() == post.last());
    }
}

/// A non-empty line without `=` is refused with its own line number, where
/// no line before it was refused.
pub proof fn lemma_missing_separator(lines: Seq<Seq<u8>>, n: int)
    requires
        1 <= n <= lines.len(),
        lines.len() <= usize::MAX,
        lines[n - 1].len() > 0,
        !has_separator(lines[n - 1]),
        parse_lines_spec(lines.take(n - 1)) is Ok,
    ensures
        parse_lines_spec(lines) == Err::<ParseState, ConfigError>(ConfigError::MissingSeparator { line: n as usize }),
{
    assert(lines.take(n).drop_last() =~= lines.take(n - 1));
    lemma_error_persists(lines, n);
}

/// A known key whose value is not a number is refused with its own line
/// number, where no line before it was refused.
pub proof fn lemma_invalid_number(lines: Seq<Seq<u8>>, n: int)
    requires
        1 <= n <= lines.len(),
        lines.len() <= usize::MAX,
        has_separator(lines[n - 1]),
        setting_of(key_spec(lines[n - 1])) is Some,
        parse_u32_spec(value_spec(lines[n - 1])) is None,
        parse_lines_spec(lines.take(n - 1)) is Ok,
    ensures
        parse_lines_spec(lines) == Err::<ParseState, ConfigError>(ConfigError::InvalidNumber { line: n as usize }),
{
    assert(lines.take(n).drop_last() =~= lines.take(n - 1));
    lemma_error_persists(lines, n);
}

/// A line with an unknown key has the effect of an empty line on the
/// configuration and on the errors; it is only recorded.
pub proof fn lemma_unknown_key_ignored(pre: Seq<Seq<u8>>, line: Seq<u8>, post: Seq<Seq<u8>>)
    requires
        has_separator(line),
        setting_of(key_spec(line)) is None,
    ensures
        same_config(
            parse_lines_spec(pre.push(line) + post),
            parse_lines_spec(pre.push(Seq::empty()) + post),
        ),
{
    assert(pre.push(line).drop_last() =~= pre);
    assert(pre.push(Seq::<u8>::empty()).drop_last() =~= pre);
    lemma_same_config_extend(pre.push(line), pre.push(Seq::empty()), post);
}

/// A line that sets `s` to a valid number.
pub open spec fn sets(line: Seq<u8>, s: Setting) -> bool {
    &&& has_separator(line)
    &&& setting_of(key_spec(line)) == Some(s)
    &&& parse_u32_spec(value_spec(line)) is Some
}

/// Two lines that set different settings may change places: the
/// configuration, or the error, stays the same.
pub proof fn lemma_swap_settings(
    pre: Seq<Seq<u8>>,
    a: Seq<u8>,
    b: Seq<u8>,
    s: Setting,
    t: Setting,
    post: Seq<Seq<u8>>,
)
    requires
        sets(a, s),
        sets(b, t),
        s != t,
    ensures
        same_config(
            parse_lines_spec(pre + seq![a, b] + post),
            parse_lines_spec(pre + seq![b, a] + post),
        ),
{
    let x = pre + seq![a, b];
    let y = pre + seq![b, a];
    assert(x.drop_last().drop_last() =~= pre);
    assert(y.drop_last().drop_last() =~= pre);
    assert(x.drop_last().last() == a);
    assert(y.drop_last().last() == b);
    assert(x.last() == b);
    assert(y.last() == a);
    match parse_lines_spec(pre) {
        Err(e) => {
            assert(parse_lines_spec(x.drop_last()) == Err::<ParseState, ConfigError>(e));
            assert(parse_lines_spec(y.drop_last()) == Err::<ParseState, ConfigError>(e));
        },
        Ok(acc) => {
            let c = acc.0;
            let n = pre.len();
            let va = parse_u32_spec(value_spec(a)).unwrap();
            let vb = parse_u32_spec(value_spec(b)).unwrap();
            let xa = (with_setting(c, s, va), acc.1);
            let yb = (with_setting(c, t, vb), acc.1);
            assert(parse_lines_spec(x.drop_last()) == Ok::<ParseState, ConfigError>(xa));
            assert(parse_lines_spec(y.drop_last()) == Ok::<ParseState, ConfigError>(yb));
            assert(parse_lines_spec(x) == Ok::<ParseState, ConfigError>((with_setting(xa.0, t, vb), acc.1)));
            assert(parse_lines_spec(y) == Ok::<ParseState, ConfigError>((with_setting(yb.0, s, va), acc.1)));
            assert(with_setting(with_setting(c, s, va), t, vb) == with_setting(with_setting(c, t, vb), s, va));
        },
    }
    lemma_same_config_extend(x, y, post);
}

/// Once a prefix of the lines is refused, so is the whole text, with the
/// same error.
proof fn lemma_error_persists(lines: Seq<Seq<u8>>, k: int)
    requires
        0 <= k <= lines.len(),
        parse_lines_spec(lines.take(k)) is Err,
    ensures
        parse_lines_spec(lines) == parse_lines_spec(lines.take(k)),
    decreases lines.len() - k,
{
    if k == lines.len() {
        assert(lines.take(k) =~= lines);
    } else {
        let next = lines.take(k + 1);
        assert(next.drop_last() =~= lines.take(k));
        assert(parse_lines_spec(next) == parse_lines_spec(lines.take(k)));
        lemma_error_persists(lines, k + 1);
    }
}

/// The bytes of `horizontal_resolution`.
pub fn horizontal_key_bytes() -> (r: Vec<u8>)
    ensures
        r@ == horizontal_key(),
{
    let r = vec![104u8, 111, 114, 105, 122, 111, 110, 116, 97, 108, 95, 114, 101, 115, 111, 108, 117, 116, 105, 111, 110];
    assert(r@ =~= horizontal_key());
    r
}

/// The bytes of `vertical_resolution`.
pub fn vertical_key_bytes() -> (r: Vec<u8>)
    ensures
        r@ == vertical_key(),
{
    let r = vec![118u8, 101, 114, 116, 105, 99, 97, 108, 95, 114, 101, 115, 111, 108, 117, 116, 105, 111, 110];
    assert(r@ =~= vertical_key());
    r
}

/// The bytes of `fps_max`.
pub fn fps_max_key_bytes() -> (r: Vec<u8>)
    ensures
        r@ == fps_max_key(),
{
    let r = vec![102u8, 112, 115, 95, 109, 97, 120];
    assert(r@ =~= fps_max_key());
    r
}

/// Byte-wise equality of two slices.
pub fn bytes_equal(a: &[u8], b: &[u8]) -> (r: bool)
    ensures
        r == (a@ == b@),
{
    if a.len() != b.len() {
        return false;
    }
    let mut i: usize = 0;
    while i < a.len()
        invariant
            a@.len() == b@.len(),
            0 <= i <= a@.len(),
            forall|j: int| 0 <= j < i ==> a@[j] == b@[j],
        decreases a@.len() - i,
    {
        if a[i] != b[i] {
            return false;
        }
        i = i + 1;
    }
    assert(a@ =~= b@);
    true
}

/// The setting that `key` names, if any.
pub fn lookup_setting(key: &[u8]) -> (r: Option<Setting>)
    ensures
        r == setting_of(key@),
{
    if bytes_equal(key, horizontal_key_bytes().as_slice()) {
        Some(Setting::HorizontalResolution)
    } else if bytes_equal(key, vertical_key_bytes().as_slice()) {
        Some(Setting::VerticalResolution)
    } else if bytes_equal(key, fps_max_key_bytes().as_slice()) {
        Some(Setting::FpsMax)
    } else {
        None
    }
}

impl Config {
    /// The configuration that fields absent from the text keep.
    pub fn placeholder() -> (r: Config)
        ensures
            r == placeholder_config(),
    {
        Config { horizontal_resolution: 10, vertical_resolution: 10, fps_max: 0, reserved: 0 }
    }

    /// Sets setting `s` to `v`, leaving the other fields as they are.
    pub fn set(&mut self, s: Setting, v: u32)
        ensures
            *final(self) == with_setting(*old(self), s, v),
    {
        match s {
            Setting::HorizontalResolution => self.horizontal_resolution = v,
            Setting::VerticalResolution => self.vertical_resolution = v,
            Setting::FpsMax => self.fps_max = v,
        }
    }
}

/// Applies line `number` of a configuration text to `config`, recording an
/// unknown key in `unknown`.
pub fn apply_line(config: &mut Config, unknown: &mut Vec<UnknownKey>, line: &[u8], number: usize) -> (r: Result<(), ConfigError>)
    ensures
        match r {
            Ok(_) => step_line((*old(config), warnings_of(old(unknown)@)), line@, number) == Ok::<ParseState, ConfigError>(
                (*final(config), warnings_of(final(unknown)@)),
            ),
            Err(e) => step_line((*old(config), warnings_of(old(unknown)@)), line@, number) == Err::<ParseState, ConfigError>(e),
        },
{
    if line.len() == 0 {
        return Ok(());
    }
    match split_pair(line) {
        None => Err(ConfigError::MissingSeparator { line: number }),
        Some((key, value)) => match lookup_setting(key.as_slice()) {
            None => {
                let ghost before = warnings_of(unknown@);
                let ghost key_bytes = key@;
                unknown.push(UnknownKey { line: number, key });
                assert(warnings_of(unknown@) =~= before.push((number, key_bytes)));
                Ok(())
            },
            Some(s) => match parse_u32(value.as_slice()) {
                None => Err(ConfigError::InvalidNumber { line: number }),
                Some(v) => {
                    config.set(s, v);
                    Ok(())
                },
            },
        },
    }
}

/// Reads a configuration text: its lines in order, starting from the
/// placeholder configuration. The first line that is refused gives the
/// error; unknown keys are collected with their line numbers.
pub fn parse_config(text: &[u8]) -> (r: Result<Parsed, ConfigError>)
    ensures
        matches_outcome(r, parse_spec(text@)),
{
    let lines = split_lines(text);
    let ghost ls = views_of(lines@);
    let mut config = Config::placeholder();
    let mut unknown: Vec<UnknownKey> = Vec::new();
    let mut i: usize = 0;
    assert(ls.take(0) =~= Seq::<Seq<u8>>::empty());
    assert(warnings_of(unknown@) =~= Seq::<(usize, Seq<u8>)>::empty());
    while i < lines.len()
        invariant
            ls == views_of(lines@),
            ls == split_lines_spec(text@),
            0 <= i <= lines@.len(),
            parse_lines_spec(ls.take(i as int)) == Ok::<ParseState, ConfigError>((config, warnings_of(unknown@))),
        decreases lines@.len() - i,
    {
        let ghost prefix = ls.take(i + 1);
        assert(prefix.drop_last() =~= ls.take(i as int));
        assert(prefix.last() == lines@[i as int]@);
        let ghost state = (config, warnings_of(unknown@));
        assert(parse_lines_spec(prefix) == step_line(state, lines@[i as int]@, (i + 1) as usize));
        match apply_line(&mut config, &mut unknown, lines[i].as_slice(), i + 1) {
            Ok(_) => {},
            Err(e) => {
                assert(parse_lines_spec(prefix) == Err::<ParseState, ConfigError>(e));
                proof {
                    lemma_error_persists(ls, i + 1);
                }
                return Err(e);
            },
        }
        i = i + 1;
    }
    assert(ls.take(i as int) =~= ls);
    Ok(Parsed { config, unknown })
}

} // verus!
