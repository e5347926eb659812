//! Loading the configuration resource: a missing resource is created with
//! the default settings, an existing one is read and never written.
use vstd::prelude::*;

use crate::config::{
    fps_max_key, fps_max_key_bytes, horizontal_key, horizontal_key_bytes, matches_outcome,
    parse_config, parse_spec, vertical_key, warnings_of, vertical_key_bytes, ConfigError, ParseState, Parsed,
};
use crate::config::{
    parse_lines_spec, setting_of, step_line, with_setting, placeholder_config, Config, Setting,
};
use crate::text::{
    digits_value, lemma_separator_at, lemma_split_join, lemma_split_single_line,
    parse_u32_spec, split_lines_spec, unsigned_digits, NEWLINE, SEPARATOR,
};

verus! {

/// What an attempt to open the resource for reading gave.
#[derive(Clone, Copy, Debug, PartialEq, Eq, Structural)]
pub enum OpenStatus {
    Opened,
    NotFound,
    /// Any other failure, such as a denied permission.
    Failed,
}

/// What to do after an attempt to open the resource.
#[derive(Clone, Copy, Debug, PartialEq, Eq, Structural)]
pub enum LoadAction {
    Read,
    CreateDefault,
    Abort,
}

/// A missing resource is created; any other failure is fatal.
pub open spec fn action_spec(status: OpenStatus) -> LoadAction {
    match status {
        OpenStatus::Opened => LoadAction::Read,
        OpenStatus::NotFound => LoadAction::CreateDefault,
        OpenStatus::Failed => LoadAction::Abort,
    }
}

/// Decides what follows an attempt to open the resource.
pub fn action_for(status: OpenStatus) -> (r: LoadAction)
    ensures
        r == action_spec(status),
{
    match status {
        OpenStatus::Opened => LoadAction::Read,
        OpenStatus::NotFound => LoadAction::CreateDefault,
        OpenStatus::Failed => LoadAction::Abort,
    }
}

/// `key=digits`
pub open spec fn setting_line(key: Seq<u8>, digits: Seq<u8>) -> Seq<u8> {
    key + seq![SEPARATOR] + digits
}

/// The body of a newly created resource:
/// `vertical_resolution=1080`, `horizontal_resolution=1920` and
/// `fps_max=60`, one per line.
pub open spec fn default_text() -> Seq<u8> {
    setting_line(vertical_key(), seq![49u8, 48, 56, 48]) + seq![NEWLINE] + setting_line(
        horizontal_key(),
        seq![49u8, 57, 50, 48],
    ) + seq![NEWLINE] + setting_line(fps_max_key(), seq![54u8, 48])
}

/// The body of a newly created resource.
pub fn default_config_text() -> (r: Vec<u8>)
    ensures
        r@ == default_text(),
{
    let mut r = vertical_key_bytes();
    r.push(SEPARATOR);
    r.append(&mut vec![49u8, 48, 56, 48]);
    r.push(NEWLINE);
    r.append(&mut horizontal_key_bytes());
    r.push(SEPARATOR);
    r.append(&mut vec![49u8, 57, 50, 48]);
    r.push(NEWLINE);
    r.append(&mut fps_max_key_bytes());
    r.push(SEPARATOR);
    r.append(&mut vec![54u8, 48]);
    assert(r@ =~= default_text());
    r
}

/// The settings that the default body holds.
pub open spec fn default_config() -> Config {
    Config { horizontal_resolution: 1920, vertical_resolution: 1080, fps_max: 60, reserved: 0 }
}

/// A line `key=digits` whose key holds no separator and which holds no
/// newline sets the key's setting to the digits' value.
proof fn lemma_setting_line(acc: ParseState, key: Seq<u8>, digits: Seq<u8>, s: Setting, v: u32, n: usize)
    requires
        forall|i: int| 0 <= i < key.len() ==> key[i] != SEPARATOR,
        setting_of(key) == Some(s),
        parse_u32_spec(digits) == Some(v),
    ensures
        step_line(acc, setting_line(key, digits), n) == Ok::<ParseState, ConfigError>(
            (with_setting(acc.0, s, v), acc.1),
        ),
{
    let l = setting_line(key, digits);
    assert(l[key.len() as int] == SEPARATOR);
    assert forall|j: int| 0 <= j < key.len() implies l[j] != SEPARATOR by {
        assert(l[j] == key[j]);
    }
    lemma_separator_at(l, key.len() as int);
    assert(l.take(key.len() as int) =~= key);
    assert(l.skip(key.len() as int + 1) =~= digits);
}

/// The default body reads as the default settings, with no unknown keys.
pub proof fn lemma_default_text_parses()
    ensures
        parse_spec(default_text()) == Ok::<ParseState, ConfigError>((default_config(), Seq::empty())),
{
    let d1 = seq![49u8, 48, 56, 48];
    let d2 = seq![49u8, 57, 50, 48];
    let d3 = seq![54u8, 48];
    let l1 = setting_line(vertical_key(), d1);
    let l2 = setting_line(horizontal_key(), d2);
    let l3 = setting_line(fps_max_key(), d3);
    assert(forall|i: int| 0 <= i < l1.len() ==> l1[i] != NEWLINE);
    assert(forall|i: int| 0 <= i < l2.len() ==> l2[i] != NEWLINE);
    assert(forall|i: int| 0 <= i < l3.len() ==> l3[i] != NEWLINE);
    lemma_split_single_line(l1);
    lemma_split_single_line(l2);
    lemma_split_single_line(l3);
    lemma_split_join(l1, l2);
    lemma_split_join(l1 + seq![NEWLINE] + l2, l3);
    let lines = seq![l1, l2, l3];
    assert(split_lines_spec(default_text()) =~= lines);

    reveal_with_fuel(digits_value, 5);
    assert(unsigned_digits(d1) == d1);
    assert(unsigned_digits(d2) == d2);
    assert(unsigned_digits(d3) == d3);
    assert(d1.drop_last() =~= seq![49u8, 48, 56]);
    assert(d1.drop_last().drop_last() =~= seq![49u8, 48]);
    assert(d1.drop_last().drop_last().drop_last() =~= seq![49u8]);
    assert(d1.drop_last().drop_last().drop_last().drop_last() =~= Seq::<u8>::empty());
    assert(d2.drop_last() =~= seq![49u8, 57, 50]);
    assert(d2.drop_last().drop_last() =~= seq![49u8, 57]);
    assert(d2.drop_last().drop_last().drop_last() =~= seq![49u8]);
    assert(d2.drop_last().drop_last().drop_last().drop_last() =~= Seq::<u8>::empty());
    assert(d3.drop_last() =~= seq![54u8]);
    assert(d3.drop_last().drop_last() =~= Seq::<u8>::empty());
    assert(parse_u32_spec(d1) == Some(1080u32));
    assert(parse_u32_spec(d2) == Some(1920u32));
    assert(parse_u32_spec(d3) == Some(60u32));

    assert(forall|i: int| 0 <= i < vertical_key().len() ==> vertical_key()[i] != SEPARATOR);
    assert(forall|i: int| 0 <= i < horizontal_key().len() ==> horizontal_key()[i] != SEPARATOR);
    assert(forall|i: int| 0 <= i < fps_max_key().len() ==> fps_max_key()[i] != SEPARATOR);
    assert(setting_of(vertical_key()) == Some(Setting::VerticalResolution));
    assert(setting_of(horizontal_key()) == Some(Setting::HorizontalResolution));
    assert(setting_of(fps_max_key()) == Some(Setting::FpsMax));

    let s0: ParseState = (placeholder_config(), Seq::empty());
    lemma_setting_line(s0, vertical_key(), d1, Setting::VerticalResolution, 1080, 1);
    let s1: ParseState = (with_setting(s0.0, Setting::VerticalResolution, 1080), s0.1);
    lemma_setting_line(s1, horizontal_key(), d2, Setting::HorizontalResolution, 1920, 2);
    let s2: ParseState = (with_setting(s1.0, Setting::HorizontalResolution, 1920), s1.1);
    lemma_setting_line(s2, fps_max_key(), d3, Setting::FpsMax, 60, 3);
    assert(lines.drop_last() =~= seq![l1, l2]);
    assert(lines.drop_last().drop_last() =~= seq![l1]);
    assert(lines.drop_last().drop_last().drop_last() =~= Seq::<Seq<u8>>::empty());
    reveal_with_fuel(parse_lines_spec, 4);
}

/// One load against the resource's contents, `None` where it does not
/// exist: what is written to the resource, if anything, and what reading
/// gives.
pub open spec fn load_spec(existing: Option<Seq<u8>>) -> (Option<Seq<u8>>, Result<ParseState, ConfigError>) {
    match existing {
        Some(t) => (None, parse_spec(t)),
        None => (Some(default_text()), parse_spec(default_text())),
    }
}

/// The resource's contents after a load that wrote `written`.
pub open spec fn resource_after(existing: Option<Seq<u8>>, written: Option<Seq<u8>>) -> Option<Seq<u8>> {
    match written {
        Some(w) => Some(w),
        None => existing,
    }
}

/// The bytes of a resource that may be missing.
pub open spec fn contents_of(existing: Option<&[u8]>) -> Option<Seq<u8>> {
    match existing {
        Some(t) => Some(t@),
        None => None,
    }
}

/// The outcome of a load.
#[derive(Debug, PartialEq, Eq)]
pub struct Loaded {
    /// The bytes to create the resource with, where it was missing.
    pub create: Option<Vec<u8>>,
    /// What reading the resource gave.
    pub outcome: Result<Parsed, ConfigError>,
}

/// Loads the configuration from the resource's contents, `None` where it
/// does not exist: a missing resource is to be created with the default
/// body, which is then read.
pub fn load(existing: Option<&[u8]>) -> (r: Loaded)
    ensures
        r.create matches Some(w) ==> load_spec(contents_of(existing)).0 == Some(w@),
        r.create is None ==> load_spec(contents_of(existing)).0 is None,
        matches_outcome(r.outcome, load_spec(contents_of(existing)).1),
        existing is None ==> (r.create matches Some(w) && w@ == default_text()),
        existing is None ==> (r.outcome matches Ok(p) && p.config == default_config()
            && p.unknown@.len() == 0),
{
    match existing {
        Some(t) => Loaded { create: None, outcome: parse_config(t) },
        None => {
            let body = default_config_text();
            let outcome = parse_config(body.as_slice());
            proof {
                lemma_default_text_parses();
                assert(outcome is Ok ==> warnings_of(outcome->Ok_0.unknown@).len()
                    == outcome->Ok_0.unknown@.len());
            }
            Loaded { create: Some(body), outcome }
        },
    }
}

/// Loading is idempotent: a second load against the resource that the first
/// left writes nothing and reads the same as the first, and a load against
/// an existing resource leaves it as it was.
pub proof fn lemma_load_idempotent(existing: Option<Seq<u8>>)
    ensures
        ({
            let first = load_spec(existing);
            let after = resource_after(existing, first.0);
            let second = load_spec(after);
            &&& second.0 is None
            &&& second.1 == first.1
            &&& resource_after(after, second.0) == after
            &&& existing is Some ==> after == existing
        }),
{
}

} // verus!
