//! `QNL-Config.toml`: what a project has decided, once, for every file in it.
//!
//! This file decides how every source file in the project is built, so a mistake in it
//! deserves the same error a mistake in a source file gets: the rule that was broken, the
//! line, and the fix. So it is read here, by hand, rather than by a library that would
//! say `invalid value at line 4`.
//!
//! Settings do not all cost the same. One that changes **what gets delivered** costs
//! nothing to test, because the answer is the same either way. One that changes **what a
//! program answers** multiplies the oracle, because every engine must agree under each
//! value of it. Which pile a setting is in is written on it below.

use vstd::prelude::*;
use vstd::utf8::*;
use crate::chars::{
    drop_char, drop_char_from, drop_white, find, find_from, first_at, first_from, holds,
    lemma_first_at, skip_char, skip_char_from, skip_white, string_of, trim,
};
use crate::diag::{label_views, texts, Diagnostic, DiagnosticView, LabelStyle};
use crate::source::Span;
use crate::text::{char_width, chars_of, lemma_encode_push, lemma_encode_concat};

verus! {

broadcast use vstd::utf8::group_utf8_lib, vstd::string::group_string_axioms;

/// How a division rounds, and which way its remainder leans.
///
/// **Semantic.** One setting for both, because they are one division: every convention
/// answers `a = q × b + r`, and choosing `q` decides `r`.
#[derive(Clone, Copy, PartialEq, Eq, Debug, Default, Structural)]
pub enum Division {
    /// Toward zero, and the remainder follows the dividend. `-7 / 2` is `-3` remainder
    /// `-1`. What every processor does.
    #[default]
    Truncated,
    /// Toward negative infinity, and the remainder follows the divisor. `-7 / 2` is `-4`
    /// remainder `1`.
    Floored,
}

/// How hard the optimiser tries, and therefore how long it may take.
///
/// **Delivery.** Every level must give the same result; what it changes is what the
/// compiler does.
#[derive(Clone, Copy, PartialEq, Eq, Debug, Default, Structural)]
pub enum Optimise {
    /// Compile fast and transform nothing.
    Nothing,
    /// Make it fast. The default, because the engine this setting is for is the one that
    /// ships.
    #[default]
    Speed,
    /// Make it fast, and prefer the smaller of two ways of doing that.
    SpeedAndSize,
}

/// What happens when a number does not fit.
///
/// **Semantic.** `9223372036854775807 + 1` is the smallest number under `wrap` and a stop
/// under `trap`.
#[derive(Clone, Copy, PartialEq, Eq, Debug, Default, Structural)]
pub enum Overflow {
    /// Round the answer into the type, as the processor does.
    #[default]
    Wrap,
    /// Stop, in the same place and for the same reason in every engine.
    Trap,
}

/// Whether `and` and `or` ask their right side once their left side has settled it.
///
/// **Semantic**: the right side can call something that prints, so the same source is
/// two programs.
#[derive(Clone, Copy, PartialEq, Eq, Debug, Default, Structural)]
pub enum Logic {
    /// `and` asks its right side only when the left was true, and `or` only when the left
    /// was false. What makes a guard a guard.
    #[default]
    StopsEarly,
    /// Both sides, always, whatever the left one said.
    AsksBoth,
}

/// What a float does when there is no number to give back.
///
/// **Semantic**, the same shape as `overflow`.
#[derive(Clone, Copy, PartialEq, Eq, Debug, Default, Structural)]
pub enum NoNumber {
    /// `infinity`, `-infinity` or `not-a-number`, and the program carries on.
    #[default]
    CarriesOn,
    /// Stop, in the same place and for the same reason in every engine.
    Stops,
}

/// Which engine runs a program.
///
/// **Delivery.** Every engine gives the same answer; this changes how a program runs and
/// never what it says.
#[derive(Clone, Copy, PartialEq, Eq, Debug, Default, Structural)]
pub enum Engine {
    #[default]
    DevJit,
    Interpreter,
}

/// What a character of text is, when a program counts, slices or searches one.
///
/// **Semantic**: the same text has a different number of characters under each.
#[derive(Clone, Copy, PartialEq, Eq, Debug, Default, Structural)]
pub enum Characters {
    /// What a reader counts: grapheme clusters.
    #[default]
    Clusters,
    /// Unicode scalars, one at a time.
    Letters,
}

/// What `min` and `max` do when one side is not a number.
///
/// **Semantic**: the two give different answers for the same operands.
#[derive(Clone, Copy, PartialEq, Eq, Debug, Default, Structural)]
pub enum MinMax {
    /// Leave the missing number out and answer with the other.
    #[default]
    Skips,
    /// A missing number on either side makes the answer missing too.
    Spreads,
}

/// What the project file said, with anything it did not mention left at its default.
#[derive(Clone, Copy, PartialEq, Eq, Debug, Structural)]
pub struct Settings {
    /// `[defaults] division`
    pub division: Division,
    /// `[defaults] logic`
    pub logic: Logic,
    /// `[defaults] no-number`
    pub no_number: NoNumber,
    /// `[run] engine`
    pub engine: Engine,
    /// `[build] optimise`
    pub optimise: Optimise,
    /// `[defaults] overflow`
    pub overflow: Overflow,
    /// `[defaults] characters`
    pub characters: Characters,
    /// `[defaults] min-max`
    pub min_max: MinMax,
}

/// Every setting at the value a project that says nothing gets.
pub open spec fn defaults() -> Settings {
    Settings {
        division: Division::Truncated,
        logic: Logic::StopsEarly,
        no_number: NoNumber::CarriesOn,
        engine: Engine::DevJit,
        optimise: Optimise::Speed,
        overflow: Overflow::Wrap,
        characters: Characters::Clusters,
        min_max: MinMax::Skips,
    }
}

impl Default for Settings {
    fn default() -> (s: Settings)
        ensures
            s == defaults(),
    {
        Settings {
            division: Division::Truncated,
            logic: Logic::StopsEarly,
            no_number: NoNumber::CarriesOn,
            engine: Engine::DevJit,
            optimise: Optimise::Speed,
            overflow: Overflow::Wrap,
            characters: Characters::Clusters,
            min_max: MinMax::Skips,
        }
    }
}

/// Every setting the reader knows, by section: the list a refusal names and the keys the
/// reader accepts, kept as one thing so that neither can drift from the other.
///
/// `[program.files]` is not here on purpose: its keys are the writer's names, not
/// settings with a fixed set of values.
pub const KEYS: [(&'static str, &'static str); 8] = [
    ("defaults", "division"),
    ("defaults", "logic"),
    ("defaults", "no-number"),
    ("defaults", "overflow"),
    ("defaults", "characters"),
    ("defaults", "min-max"),
    ("build", "optimise"),
    ("run", "engine"),
];

/// What a project file said: the settings, everything wrong with it, and which files the
/// program is made of, by the name each is imported as.
#[derive(Debug)]
pub struct Config {
    pub settings: Settings,
    pub errors: Vec<Diagnostic>,
    pub files: Vec<(String, String)>,
}

/// How far into the text, in bytes, the character at index `i` begins.
pub open spec fn at_byte(s: Seq<char>, i: int) -> int {
    encode_utf8(s.take(i)).len() as int
}

/// The bytes between two character indices are the bytes of what lies between them.
pub proof fn lemma_at_byte(s: Seq<char>, a: int, b: int)
    requires
        0 <= a <= b <= s.len(),
    ensures
        at_byte(s, b) - at_byte(s, a) == encode_utf8(s.subrange(a, b)).len(),
        at_byte(s, a) <= at_byte(s, b) <= encode_utf8(s).len(),
{
    lemma_encode_concat(s.take(a), s.subrange(a, b));
    assert(s.take(a) + s.subrange(a, b) =~= s.take(b));
    lemma_encode_concat(s.take(b), s.skip(b));
    assert(s.take(b) + s.skip(b) =~= s);
}

/// Where a piece of a line sits in the file: the first place in the line's content that
/// holds the same characters, measured in bytes.
pub open spec fn span_of(s: Seq<char>, ca: int, cb: int, na: int, nb: int) -> Span {
    let i = find(s, ca, cb, s.subrange(na, nb));
    let from = if i >= 0 { i } else { ca };
    let start = at_byte(s, from);
    Span { start: start as usize, end: (start + (at_byte(s, nb) - at_byte(s, na))) as usize }
}

/// One primary label, saying "here".
pub open spec fn here(span: Span) -> Seq<(Span, Seq<char>, LabelStyle)> {
    seq![(span, "here"@, LabelStyle::Primary)]
}

/// Every allowed value between backticks, joined with " or ".
pub open spec fn or_list(vs: Seq<Seq<char>>) -> Seq<char>
    decreases vs.len(),
{
    if vs.len() == 0 {
        Seq::empty()
    } else if vs.len() == 1 {
        "`"@ + vs[0] + "`"@
    } else {
        or_list(vs.drop_last()) + " or `"@ + vs.last() + "`"@
    }
}

pub open spec fn unknown_section(name: Seq<char>, span: Span) -> DiagnosticView {
    DiagnosticView {
        code: "E0701"@,
        message: "`["@ + name + "]` is not a section this reads."@,
        rules: seq![
            "the sections are `[defaults]` for what a program means, `[build]` for what gets delivered, `[run]` for how it runs, and `[program.files]` for what a program is made of"@,
        ],
        tips: Seq::empty(),
        fixes: seq!["remove it, or move its settings into a section that exists"@],
        labels: here(span),
    }
}

pub open spec fn neither(span: Span) -> DiagnosticView {
    DiagnosticView {
        code: "E0702"@,
        message: "this line is neither a section nor a setting."@,
        rules: seq!["a setting is `key = \"value\"`, and a section is `[name]`"@],
        tips: Seq::empty(),
        fixes: seq!["write it as `key = \"value\"`"@],
        labels: here(span),
    }
}

pub open spec fn before_any(key: Seq<char>, span: Span) -> DiagnosticView {
    DiagnosticView {
        code: "E0703"@,
        message: "`"@ + key + "` is before any section."@,
        rules: seq![
            "every setting belongs to a section, so that what it affects is written down"@,
        ],
        tips: Seq::empty(),
        fixes: seq!["put a `[defaults]` or `[run]` line above it"@],
        labels: here(span),
    }
}

/// What a section holds, said in a sentence.
pub open spec fn holds_tip(section: Seq<char>) -> Seq<char> {
    if section == "defaults"@ {
        "`[defaults]` holds `division`, `logic`, `no-number`, `overflow`, `characters` and `min-max`."@
    } else if section == "build"@ {
        "`[build]` holds `optimise`."@
    } else if section == "run"@ {
        "`[run]` holds `engine`."@
    } else {
        "that section holds nothing yet."@
    }
}

pub open spec fn not_a_setting(key: Seq<char>, section: Seq<char>, span: Span) -> DiagnosticView {
    DiagnosticView {
        code: "E0704"@,
        message: "`"@ + key + "` is not a setting `["@ + section + "]` has."@,
        rules: seq![
            "a setting that is not understood is refused rather than ignored, since a project that set it meant something by it"@,
        ],
        tips: seq![holds_tip(section)],
        fixes: seq!["check the spelling, or remove the line"@],
        labels: here(span),
    }
}

pub open spec fn bad_value(
    span: Span,
    key: Seq<char>,
    given: Seq<char>,
    allowed: Seq<Seq<char>>,
) -> DiagnosticView {
    DiagnosticView {
        code: "E0705"@,
        message: "`"@ + given + "` is not something `"@ + key + "` can be."@,
        rules: seq!["`"@ + key + "` is "@ + or_list(allowed)],
        tips: Seq::empty(),
        fixes: seq!["use "@ + or_list(allowed)],
        labels: here(span),
    }
}

pub open spec fn not_a_file_line(span: Span) -> DiagnosticView {
    DiagnosticView {
        code: "E0706"@,
        message: "this line does not say a name and the file it is."@,
        rules: seq![
            "a line in `[program.files]` is `name = \"file.qnl\"`, with the file between quotes"@,
        ],
        tips: Seq::empty(),
        fixes: seq!["write it as `name = \"path/to/file.qnl\"`"@],
        labels: here(span),
    }
}

pub open spec fn listed_twice(what: Seq<char>, span: Span) -> DiagnosticView {
    DiagnosticView {
        code: "E0707"@,
        message: "`"@ + what + "` is listed twice."@,
        rules: seq!["one name is one file, and one file is one name"@],
        tips: Seq::empty(),
        fixes: seq!["remove one of the two lines"@],
        labels: here(span),
    }
}

/// Which of [`KEYS`] names this setting, looking from `i` on, or `-1`.
pub open spec fn key_index_from(section: Seq<char>, key: Seq<char>, i: int) -> int
    decreases 8 - i,
{
    if i < 0 || i >= 8 {
        -1
    } else if KEYS@[i].0@ == section && KEYS@[i].1@ == key {
        i
    } else {
        key_index_from(section, key, i + 1)
    }
}

/// Which of [`KEYS`] names this setting, or `-1`.
pub open spec fn key_index(section: Seq<char>, key: Seq<char>) -> int {
    key_index_from(section, key, 0)
}

/// The values the setting `KEYS[k]` can take, in the order the refusal lists them.
pub open spec fn allowed(k: int) -> Seq<Seq<char>> {
    if k == 0 {
        seq!["truncated"@, "floored"@]
    } else if k == 1 {
        seq!["stops-early"@, "asks-both"@]
    } else if k == 2 {
        seq!["carries-on"@, "stops"@]
    } else if k == 3 {
        seq!["wrap"@, "trap"@]
    } else if k == 4 {
        seq!["clusters"@, "letters"@]
    } else if k == 5 {
        seq!["skips"@, "spreads"@]
    } else if k == 6 {
        seq!["none"@, "speed"@, "speed-and-size"@]
    } else {
        seq!["dev-jit"@, "interpreter"@]
    }
}

/// The settings once `KEYS[k]` has been given its `j`th allowed value.
pub open spec fn chosen(s: Settings, k: int, j: int) -> Settings {
    if k == 0 {
        Settings { division: if j == 0 { Division::Truncated } else { Division::Floored }, ..s }
    } else if k == 1 {
        Settings { logic: if j == 0 { Logic::StopsEarly } else { Logic::AsksBoth }, ..s }
    } else if k == 2 {
        Settings { no_number: if j == 0 { NoNumber::CarriesOn } else { NoNumber::Stops }, ..s }
    } else if k == 3 {
        Settings { overflow: if j == 0 { Overflow::Wrap } else { Overflow::Trap }, ..s }
    } else if k == 4 {
        Settings {
            characters: if j == 0 { Characters::Clusters } else { Characters::Letters },
            ..s
        }
    } else if k == 5 {
        Settings { min_max: if j == 0 { MinMax::Skips } else { MinMax::Spreads }, ..s }
    } else if k == 6 {
        Settings {
            optimise: if j == 0 {
                Optimise::Nothing
            } else if j == 1 {
                Optimise::Speed
            } else {
                Optimise::SpeedAndSize
            },
            ..s
        }
    } else {
        Settings { engine: if j == 0 { Engine::DevJit } else { Engine::Interpreter }, ..s }
    }
}

/// Where `v` first appears in `vs`, looking from `j` on, or `-1`.
pub open spec fn index_in(vs: Seq<Seq<char>>, v: Seq<char>, j: int) -> int
    decreases vs.len() - j,
{
    if j < 0 || j >= vs.len() {
        -1
    } else if vs[j] == v {
        j
    } else {
        index_in(vs, v, j + 1)
    }
}

/// Everything read so far: the settings, what was wrong, the files listed, and the
/// section the next line is in.
pub struct ReadState {
    pub settings: Settings,
    pub errors: Seq<DiagnosticView>,
    pub files: Seq<(Seq<char>, Seq<char>)>,
    pub section: Seq<char>,
}

/// `st`, with one more error.
pub open spec fn refused(st: ReadState, d: DiagnosticView) -> ReadState {
    ReadState { errors: st.errors.push(d), ..st }
}

/// A `key = "value"` line, `[ta, tb)` trimmed, `eq` where its first `=` is.
pub open spec fn setting_line(
    st: ReadState,
    s: Seq<char>,
    ls: int,
    ce: int,
    ta: int,
    eq: int,
    tb: int,
) -> ReadState {
    let ka = skip_white(s, ta, eq);
    let kb = drop_white(s, ka, eq);
    let wa = skip_white(s, eq + 1, tb);
    let wb = drop_white(s, wa, tb);
    let va = skip_char(s, wa, wb, '"');
    let vb = drop_char(s, va, wb, '"');
    let key = s.subrange(ka, kb);
    let value = s.subrange(va, vb);
    let k = key_index(st.section, key);
    if k >= 0 {
        let j = index_in(allowed(k), value, 0);
        if j >= 0 {
            ReadState { settings: chosen(st.settings, k, j), ..st }
        } else {
            refused(st, bad_value(span_of(s, ls, ce, va, vb), key, value, allowed(k)))
        }
    } else if st.section.len() == 0 {
        refused(st, before_any(key, span_of(s, ls, ce, ka, kb)))
    } else {
        refused(st, not_a_setting(key, st.section, span_of(s, ls, ce, ka, kb)))
    }
}

/// A `name = "file.qnl"` line in `[program.files]`, `[ta, tb)` trimmed.
pub open spec fn file_line(st: ReadState, s: Seq<char>, ls: int, ce: int, ta: int, tb: int) -> ReadState {
    let eq = first_at(s, ta, tb, '=');
    let ka = skip_white(s, ta, eq);
    let kb = drop_white(s, ka, eq);
    let va = skip_white(s, eq + 1, tb);
    let vb = drop_white(s, va, tb);
    let quoted = kb > ka && s[ka] == '"';
    let name_ok = if quoted { kb - ka >= 3 && s[kb - 1] == '"' } else { kb > ka };
    let na = if quoted { ka + 1 } else { ka };
    let nb = if quoted { kb - 1 } else { kb };
    let file_ok = vb - va >= 3 && s[va] == '"' && s[vb - 1] == '"';
    let name = s.subrange(na, nb);
    let file = s.subrange(va + 1, vb - 1);
    if eq >= tb || !name_ok || !file_ok {
        refused(st, not_a_file_line(span_of(s, ls, ce, ta, tb)))
    } else if st.files.map_values(|f: (Seq<char>, Seq<char>)| f.0).contains(name) {
        refused(st, listed_twice(name, span_of(s, ls, ce, na, nb)))
    } else if st.files.map_values(|f: (Seq<char>, Seq<char>)| f.1).contains(file) {
        refused(st, listed_twice(file, span_of(s, ls, ce, va + 1, vb - 1)))
    } else {
        ReadState { files: st.files.push((name, file)), ..st }
    }
}

/// What one line `[ls, le)` of the file changes.
pub open spec fn after_line(st: ReadState, s: Seq<char>, ls: int, le: int) -> ReadState {
    let ce = first_at(s, ls, le, '#');
    let ta = skip_white(s, ls, ce);
    let tb = drop_white(s, ta, ce);
    if ta >= tb {
        st
    } else if tb - ta >= 2 && s[ta] == '[' && s[tb - 1] == ']' {
        let na = skip_white(s, ta + 1, tb - 1);
        let nb = drop_white(s, na, tb - 1);
        let name = s.subrange(na, nb);
        let known = name == "defaults"@ || name == "run"@ || name == "build"@ || name
            == "program.files"@;
        ReadState {
            errors: if known {
                st.errors
            } else {
                st.errors.push(unknown_section(name, span_of(s, ls, ce, ta, tb)))
            },
            section: name,
            ..st
        }
    } else if st.section == "program.files"@ {
        file_line(st, s, ls, ce, ta, tb)
    } else {
        let eq = first_at(s, ta, tb, '=');
        if eq >= tb {
            refused(st, neither(span_of(s, ls, ce, ta, tb)))
        } else {
            setting_line(st, s, ls, ce, ta, eq, tb)
        }
    }
}

/// Where the line that begins at `i` ends: one past its newline, or the end of the text.
pub open spec fn line_end(s: Seq<char>, i: int) -> int {
    let nl = first_at(s, i, s.len() as int, '\n');
    if nl < s.len() {
        nl + 1
    } else {
        s.len() as int
    }
}

/// Every line from the one beginning at `i` on, read in order.
pub open spec fn read_from(s: Seq<char>, i: int, st: ReadState) -> ReadState
    decreases s.len() - i,
{
    if i < 0 || i >= s.len() {
        st
    } else {
        proof {
            lemma_first_at(s, i, s.len() as int, '\n');
        }
        read_from(s, line_end(s, i), after_line(st, s, i, line_end(s, i)))
    }
}

/// What a whole project file says.
pub open spec fn read_text(s: Seq<char>) -> ReadState {
    read_from(
        s,
        0,
        ReadState {
            settings: defaults(),
            errors: Seq::empty(),
            files: Seq::empty(),
            section: Seq::empty(),
        },
    )
}

/// `o` holds the byte offset of every character of `s`, and of its end.
pub open spec fn offsets_ok(s: Seq<char>, o: Seq<usize>) -> bool {
    &&& o.len() == s.len() + 1
    &&& forall|i: int| 0 <= i <= s.len() ==> o[i] == at_byte(s, i)
}

fn offsets(text: &str, v: &Vec<char>) -> (o: Vec<usize>)
    requires
        v@ == text@,
    ensures
        offsets_ok(v@, o@),
{
    let total = text.as_bytes().len();
    let mut o: Vec<usize> = Vec::new();
    o.push(0);
    let mut at: usize = 0;
    let mut i: usize = 0;
    assert(v@.take(0) =~= Seq::<char>::empty());
    while i < v.len()
        invariant
            i <= v.len(),
            o@.len() == i + 1,
            forall|j: int| 0 <= j <= i ==> o@[j] == at_byte(v@, j),
            at == at_byte(v@, i as int),
            total == encode_utf8(v@).len(),
        decreases v.len() - i,
    {
        proof {
            lemma_encode_push(v@.take(i as int), v@[i as int]);
            assert(v@.take(i as int).push(v@[i as int]) =~= v@.take(i + 1));
            lemma_at_byte(v@, i + 1, v@.len() as int);
            lemma_at_byte(v@, v@.len() as int, v@.len() as int);
            assert(v@.take(v@.len() as int) =~= v@);
        }
        at = at + char_width(v[i]);
        o.push(at);
        i = i + 1;
    }
    o
}

proof fn lemma_find(s: Seq<char>, a: int, b: int, needle: Seq<char>)
    requires
        find(s, a, b, needle) >= 0,
    ensures
        a <= find(s, a, b, needle),
        find(s, a, b, needle) + needle.len() <= b <= s.len(),
        s.subrange(find(s, a, b, needle), find(s, a, b, needle) + needle.len()) == needle,
    decreases b - a,
{
    if needle.len() == 0 {
        assert(s.subrange(a, a) =~= needle);
    } else if s.subrange(a, a + needle.len()) != needle {
        lemma_find(s, a + 1, b, needle);
    }
}

/// Where the characters `[na, nb)` first turn up in the content `[ca, cb)`, in bytes.
fn span_in(v: &Vec<char>, o: &Vec<usize>, ca: usize, cb: usize, na: usize, nb: usize) -> (sp: Span)
    requires
        ca <= na <= nb <= cb <= v.len(),
        offsets_ok(v@, o@),
    ensures
        sp == span_of(v@, ca as int, cb as int, na as int, nb as int),
{
    proof {
        lemma_at_byte(v@, na as int, nb as int);
        lemma_at_byte(v@, ca as int, na as int);
        lemma_at_byte(v@, nb as int, cb as int);
    }
    let len = o[nb] - o[na];
    match find_from(v, ca, cb, na, nb) {
        Some(i) => {
            proof {
                let needle = v@.subrange(na as int, nb as int);
                lemma_find(v@, ca as int, cb as int, needle);
                lemma_at_byte(v@, i as int, i + (nb - na));
            }
            Span { start: o[i], end: o[i] + len }
        },
        None => Span { start: o[ca], end: o[ca] + len },
    }
}

/// An error with one primary label saying "here".
fn error_here(
    code: &str,
    message: &str,
    rule: &str,
    tip: Option<&str>,
    fix: &str,
    span: Span,
) -> (d: Diagnostic)
    ensures
        d@ == (DiagnosticView {
            code: code@,
            message: message@,
            rules: seq![rule@],
            tips: match tip {
                Some(t) => seq![t@],
                None => Seq::empty(),
            },
            fixes: seq![fix@],
            labels: here(span),
        }),
{
    let d = Diagnostic::new(code, message).primary(span, "here").rule(rule);
    let d = match tip {
        Some(t) => d.tip(t),
        None => d,
    };
    let d = d.fix(fix);
    assert(texts(d.rules@) =~= seq![rule@]);
    assert(texts(d.fixes@) =~= seq![fix@]);
    assert(label_views(d.labels@) =~= here(span));
    match tip {
        Some(t) => {
            assert(texts(d.tips@) =~= seq![t@]);
        },
        None => {
            assert(texts(d.tips@) =~= Seq::<Seq<char>>::empty());
        },
    }
    d
}

/// `a`, then `x`, then `b`.
fn around(a: &str, x: &str, b: &str) -> (m: String)
    ensures
        m@ == a@ + x@ + b@,
{
    let mut m = String::from_str(a);
    m.append(x);
    m.append(b);
    m
}

/// The allowed values, each between backticks, joined with " or ".
fn or_list_of(words: &Vec<&str>) -> (s: String)
    ensures
        s@ == or_list(words@.map_values(|w: &str| w@)),
{
    let ghost all = words@.map_values(|w: &str| w@);
    let mut s = String::new();
    let mut i: usize = 0;
    assert(all.take(0) =~= Seq::<Seq<char>>::empty());
    while i < words.len()
        invariant
            i <= words.len(),
            all == words@.map_values(|w: &str| w@),
            s@ == or_list(all.take(i as int)),
        decreases words.len() - i,
    {
        let ghost before = all.take(i as int);
        assert(all.take(i + 1).drop_last() =~= before);
        assert(all.take(i + 1).last() == words@[i as int]@);
        if i == 0 {
            s.append("`");
            s.append(words[i]);
            s.append("`");
            assert(all.take(1)[0] == words@[0]@);
        } else {
            s.append(" or `");
            s.append(words[i]);
            s.append("`");
        }
        i = i + 1;
    }
    assert(all.take(words.len() as int) =~= all);
    s
}

/// The values the setting `KEYS[k]` can take.
fn allowed_words(k: usize) -> (w: Vec<&'static str>)
    requires
        k < 8,
    ensures
        w@.map_values(|x: &str| x@) == allowed(k as int),
{
    let w = if k == 0 {
        vec!["truncated", "floored"]
    } else if k == 1 {
        vec!["stops-early", "asks-both"]
    } else if k == 2 {
        vec!["carries-on", "stops"]
    } else if k == 3 {
        vec!["wrap", "trap"]
    } else if k == 4 {
        vec!["clusters", "letters"]
    } else if k == 5 {
        vec!["skips", "spreads"]
    } else if k == 6 {
        vec!["none", "speed", "speed-and-size"]
    } else {
        vec!["dev-jit", "interpreter"]
    };
    assert(w@.map_values(|x: &str| x@) =~= allowed(k as int));
    w
}

fn choose_setting(s: &mut Settings, k: usize, j: usize)
    ensures
        *final(s) == chosen(*old(s), k as int, j as int),
{
    if k == 0 {
        s.division = if j == 0 { Division::Truncated } else { Division::Floored };
    } else if k == 1 {
        s.logic = if j == 0 { Logic::StopsEarly } else { Logic::AsksBoth };
    } else if k == 2 {
        s.no_number = if j == 0 { NoNumber::CarriesOn } else { NoNumber::Stops };
    } else if k == 3 {
        s.overflow = if j == 0 { Overflow::Wrap } else { Overflow::Trap };
    } else if k == 4 {
        s.characters = if j == 0 { Characters::Clusters } else { Characters::Letters };
    } else if k == 5 {
        s.min_max = if j == 0 { MinMax::Skips } else { MinMax::Spreads };
    } else if k == 6 {
        s.optimise = if j == 0 {
            Optimise::Nothing
        } else if j == 1 {
            Optimise::Speed
        } else {
            Optimise::SpeedAndSize
        };
    } else {
        s.engine = if j == 0 { Engine::DevJit } else { Engine::Interpreter };
    }
}

/// Which of [`KEYS`] the key `v[ka..kb]` in `section` is.
fn key_of(section: &str, v: &Vec<char>, ka: usize, kb: usize) -> (r: Option<usize>)
    requires
        ka <= kb <= v.len(),
    ensures
        match r {
            Some(k) => k < 8 && k == key_index(section@, v@.subrange(ka as int, kb as int)),
            None => key_index(section@, v@.subrange(ka as int, kb as int)) == -1,
        },
{
    let ghost key = v@.subrange(ka as int, kb as int);
    let mut i: usize = 0;
    while i < 8
        invariant
            i <= 8,
            ka <= kb <= v.len(),
            key == v@.subrange(ka as int, kb as int),
            key_index(section@, key) == key_index_from(section@, key, i as int),
        decreases 8 - i,
    {
        let (in_section, named) = KEYS[i];
        if crate::text::same_str(section, in_section) && holds(v, ka, kb, named) {
            return Some(i);
        }
        i = i + 1;
    }
    None
}

/// Which allowed value `v[va..vb]` is.
fn value_of(words: &Vec<&str>, v: &Vec<char>, va: usize, vb: usize) -> (r: Option<usize>)
    requires
        va <= vb <= v.len(),
    ensures
        match r {
            Some(j) => j < words.len() && j == index_in(
                words@.map_values(|x: &str| x@),
                v@.subrange(va as int, vb as int),
                0,
            ),
            None => index_in(
                words@.map_values(|x: &str| x@),
                v@.subrange(va as int, vb as int),
                0,
            ) == -1,
        },
{
    let ghost all = words@.map_values(|x: &str| x@);
    let ghost value = v@.subrange(va as int, vb as int);
    let mut j: usize = 0;
    while j < words.len()
        invariant
            j <= words.len(),
            va <= vb <= v.len(),
            all == words@.map_values(|x: &str| x@),
            value == v@.subrange(va as int, vb as int),
            index_in(all, value, 0) == index_in(all, value, j as int),
        decreases words.len() - j,
    {
        if holds(v, va, vb, words[j]) {
            return Some(j);
        }
        j = j + 1;
    }
    None
}

fn unknown_section_error(name: &str, span: Span) -> (d: Diagnostic)
    ensures
        d@ == unknown_section(name@, span),
{
    let message = around("`[", name, "]` is not a section this reads.");
    error_here(
        "E0701",
        message.as_str(),
        "the sections are `[defaults]` for what a program means, `[build]` for what gets delivered, `[run]` for how it runs, and `[program.files]` for what a program is made of",
        None,
        "remove it, or move its settings into a section that exists",
        span,
    )
}

fn neither_error(span: Span) -> (d: Diagnostic)
    ensures
        d@ == neither(span),
{
    error_here(
        "E0702",
        "this line is neither a section nor a setting.",
        "a setting is `key = \"value\"`, and a section is `[name]`",
        None,
        "write it as `key = \"value\"`",
        span,
    )
}

fn before_any_error(key: &str, span: Span) -> (d: Diagnostic)
    ensures
        d@ == before_any(key@, span),
{
    let message = around("`", key, "` is before any section.");
    error_here(
        "E0703",
        message.as_str(),
        "every setting belongs to a section, so that what it affects is written down",
        None,
        "put a `[defaults]` or `[run]` line above it",
        span,
    )
}

fn holds_tip_of(section: &str) -> (t: &'static str)
    ensures
        t@ == holds_tip(section@),
{
    if crate::text::same_str(section, "defaults") {
        "`[defaults]` holds `division`, `logic`, `no-number`, `overflow`, `characters` and `min-max`."
    } else if crate::text::same_str(section, "build") {
        "`[build]` holds `optimise`."
    } else if crate::text::same_str(section, "run") {
        "`[run]` holds `engine`."
    } else {
        "that section holds nothing yet."
    }
}

fn not_a_setting_error(key: &str, section: &str, span: Span) -> (d: Diagnostic)
    ensures
        d@ == not_a_setting(key@, section@, span),
{
    let mut message = around("`", key, "` is not a setting `[");
    message.append(section);
    message.append("]` has.");
    error_here(
        "E0704",
        message.as_str(),
        "a setting that is not understood is refused rather than ignored, since a project that set it meant something by it",
        Some(holds_tip_of(section)),
        "check the spelling, or remove the line",
        span,
    )
}

fn bad_value_error(span: Span, key: &str, given: &str, words: &Vec<&str>) -> (d: Diagnostic)
    ensures
        d@ == bad_value(span, key@, given@, words@.map_values(|x: &str| x@)),
{
    let list = or_list_of(words);
    let mut message = around("`", given, "` is not something `");
    message.append(key);
    message.append("` can be.");
    let mut rule = around("`", key, "` is ");
    rule.append(list.as_str());
    let mut fix = String::from_str("use ");
    fix.append(list.as_str());
    error_here("E0705", message.as_str(), rule.as_str(), None, fix.as_str(), span)
}

fn not_a_file_line_error(span: Span) -> (d: Diagnostic)
    ensures
        d@ == not_a_file_line(span),
{
    error_here(
        "E0706",
        "this line does not say a name and the file it is.",
        "a line in `[program.files]` is `name = \"file.qnl\"`, with the file between quotes",
        None,
        "write it as `name = \"path/to/file.qnl\"`",
        span,
    )
}

fn listed_twice_error(what: &str, span: Span) -> (d: Diagnostic)
    ensures
        d@ == listed_twice(what@, span),
{
    let message = around("`", what, "` is listed twice.");
    error_here(
        "E0707",
        message.as_str(),
        "one name is one file, and one file is one name",
        None,
        "remove one of the two lines",
        span,
    )
}

/// The names files were listed under.
pub open spec fn names_of(files: Seq<(Seq<char>, Seq<char>)>) -> Seq<Seq<char>> {
    files.map_values(|f: (Seq<char>, Seq<char>)| f.0)
}

/// The files listed.
pub open spec fn paths_of(files: Seq<(Seq<char>, Seq<char>)>) -> Seq<Seq<char>> {
    files.map_values(|f: (Seq<char>, Seq<char>)| f.1)
}

/// A project file part-way read.
struct Reading {
    settings: Settings,
    errors: Vec<Diagnostic>,
    files: Vec<(String, String)>,
    section: String,
}

/// The files listed, as plain values.
pub open spec fn file_views(files: Seq<(String, String)>) -> Seq<(Seq<char>, Seq<char>)> {
    files.map_values(|f: (String, String)| (f.0@, f.1@))
}

/// Every diagnostic, as plain values.
pub open spec fn diagnostic_views(errors: Seq<Diagnostic>) -> Seq<DiagnosticView> {
    errors.map_values(|d: Diagnostic| d@)
}

impl Reading {
    spec fn state(&self) -> ReadState {
        ReadState {
            settings: self.settings,
            errors: diagnostic_views(self.errors@),
            files: file_views(self.files@),
            section: self.section@,
        }
    }

    fn refuse(&mut self, d: Diagnostic)
        ensures
            final(self).state() == refused(old(self).state(), d@),
    {
        self.errors.push(d);
        assert(diagnostic_views(self.errors@) =~= diagnostic_views(old(self).errors@).push(d@));
    }

    /// Whether a file is already listed under this name, or this file under any name.
    fn listed(&self, what: &String, by_name: bool) -> (r: bool)
        ensures
            r == if by_name {
                names_of(self.state().files).contains(what@)
            } else {
                paths_of(self.state().files).contains(what@)
            },
    {
        let ghost all = if by_name {
            names_of(self.state().files)
        } else {
            paths_of(self.state().files)
        };
        let mut i: usize = 0;
        while i < self.files.len()
            invariant
                i <= self.files@.len(),
                all.len() == self.files@.len(),
                all == if by_name {
                    names_of(self.state().files)
                } else {
                    paths_of(self.state().files)
                },
                forall|j: int| 0 <= j < i ==> all[j] != what@,
            decreases self.files.len() - i,
        {
            let same = if by_name {
                self.files[i].0 == *what
            } else {
                self.files[i].1 == *what
            };
            if same {
                assert(all[i as int] == what@);
                return true;
            }
            i = i + 1;
        }
        false
    }
}

fn take_setting_line(
    r: &mut Reading,
    v: &Vec<char>,
    o: &Vec<usize>,
    ls: usize,
    ce: usize,
    ta: usize,
    eq: usize,
    tb: usize,
)
    requires
        ls <= ta <= eq < tb <= ce <= v.len(),
        offsets_ok(v@, o@),
    ensures
        final(r).state() == setting_line(
            old(r).state(),
            v@,
            ls as int,
            ce as int,
            ta as int,
            eq as int,
            tb as int,
        ),
{
    let (ka, kb) = trim(v, ta, eq);
    let (wa, wb) = trim(v, eq + 1, tb);
    let va = skip_char_from(v, wa, wb, '"');
    let vb = drop_char_from(v, va, wb, '"');
    match key_of(r.section.as_str(), v, ka, kb) {
        Some(k) => {
            let words = allowed_words(k);
            match value_of(&words, v, va, vb) {
                Some(j) => {
                    choose_setting(&mut r.settings, k, j);
                },
                None => {
                    let span = span_in(v, o, ls, ce, va, vb);
                    let key = string_of(v, ka, kb);
                    let given = string_of(v, va, vb);
                    r.refuse(bad_value_error(span, key.as_str(), given.as_str(), &words));
                },
            }
        },
        None => {
            let span = span_in(v, o, ls, ce, ka, kb);
            let key = string_of(v, ka, kb);
            if r.section.as_str().is_empty() {
                r.refuse(before_any_error(key.as_str(), span));
            } else {
                let d = not_a_setting_error(key.as_str(), r.section.as_str(), span);
                r.refuse(d);
            }
        },
    }
}

fn take_file_line(
    r: &mut Reading,
    v: &Vec<char>,
    o: &Vec<usize>,
    ls: usize,
    ce: usize,
    ta: usize,
    tb: usize,
)
    requires
        ls <= ta < tb <= ce <= v.len(),
        offsets_ok(v@, o@),
    ensures
        final(r).state() == file_line(
            old(r).state(),
            v@,
            ls as int,
            ce as int,
            ta as int,
            tb as int,
        ),
{
    let eq = first_from(v, ta, tb, '=');
    if eq >= tb {
        r.refuse(not_a_file_line_error(span_in(v, o, ls, ce, ta, tb)));
        return;
    }
    let (ka, kb) = trim(v, ta, eq);
    let (va, vb) = trim(v, eq + 1, tb);
    let quoted = kb > ka && v[ka] == '"';
    let name_ok = if quoted {
        kb - ka >= 3 && v[kb - 1] == '"'
    } else {
        kb > ka
    };
    let file_ok = vb - va >= 3 && v[va] == '"' && v[vb - 1] == '"';
    if !name_ok || !file_ok {
        r.refuse(not_a_file_line_error(span_in(v, o, ls, ce, ta, tb)));
        return;
    }
    let (na, nb) = if quoted {
        (ka + 1, kb - 1)
    } else {
        (ka, kb)
    };
    let name = string_of(v, na, nb);
    let file = string_of(v, va + 1, vb - 1);
    if r.listed(&name, true) {
        r.refuse(listed_twice_error(name.as_str(), span_in(v, o, ls, ce, na, nb)));
    } else if r.listed(&file, false) {
        r.refuse(listed_twice_error(file.as_str(), span_in(v, o, ls, ce, va + 1, vb - 1)));
    } else {
        let ghost before = r.state();
        r.files.push((name, file));
        assert(file_views(r.files@) =~= before.files.push((name@, file@)));
    }
}

fn take_line(r: &mut Reading, v: &Vec<char>, o: &Vec<usize>, ls: usize, le: usize)
    requires
        ls <= le <= v.len(),
        offsets_ok(v@, o@),
    ensures
        final(r).state() == after_line(old(r).state(), v@, ls as int, le as int),
{
    let ce = first_from(v, ls, le, '#');
    let (ta, tb) = trim(v, ls, ce);
    if ta >= tb {
        return;
    }
    if tb - ta >= 2 && v[ta] == '[' && v[tb - 1] == ']' {
        let (na, nb) = trim(v, ta + 1, tb - 1);
        let name = string_of(v, na, nb);
        let known = holds(v, na, nb, "defaults") || holds(v, na, nb, "run") || holds(
            v,
            na,
            nb,
            "build",
        ) || holds(v, na, nb, "program.files");
        if !known {
            let span = span_in(v, o, ls, ce, ta, tb);
            r.refuse(unknown_section_error(name.as_str(), span));
        }
        r.section = name;
        return;
    }
    if crate::text::same_str(r.section.as_str(), "program.files") {
        take_file_line(r, v, o, ls, ce, ta, tb);
        return;
    }
    let eq = first_from(v, ta, tb, '=');
    if eq >= tb {
        r.refuse(neither_error(span_in(v, o, ls, ce, ta, tb)));
        return;
    }
    take_setting_line(r, v, o, ls, ce, ta, eq, tb);
}

/// Read a `QNL-Config.toml`, reporting everything wrong with it rather than the first
/// thing. A setting that is not understood leaves its default in place.
pub fn read(text: &str) -> (c: Config)
    ensures
        c.settings == read_text(text@).settings,
        diagnostic_views(c.errors@) == read_text(text@).errors,
        file_views(c.files@) == read_text(text@).files,
{
    let v = chars_of(text);
    let o = offsets(text, &v);
    let mut r = Reading {
        settings: Settings::default(),
        errors: Vec::new(),
        files: Vec::new(),
        section: String::new(),
    };
    assert(r.state().errors =~= Seq::<DiagnosticView>::empty());
    assert(r.state().files =~= Seq::<(Seq<char>, Seq<char>)>::empty());
    let mut i: usize = 0;
    while i < v.len()
        invariant
            i <= v.len(),
            v@ == text@,
            offsets_ok(v@, o@),
            read_text(v@) == read_from(v@, i as int, r.state()),
        decreases v.len() - i,
    {
        let nl = first_from(&v, i, v.len(), '\n');
        let le = if nl < v.len() {
            nl + 1
        } else {
            v.len()
        };
        take_line(&mut r, &v, &o, i, le);
        i = le;
    }
    Config { settings: r.settings, errors: r.errors, files: r.files }
}

/// A character a project file's words are made of: a lower-case letter or a hyphen.
pub open spec fn bare_char(c: char) -> bool {
    (0x61 <= c as u32 && c as u32 <= 0x7A) || c == '-'
}

/// A word of lower-case letters and hyphens, which the reader takes as it is written.
pub open spec fn bare(w: Seq<char>) -> bool
    decreases w.len(),
{
    if w.len() == 0 {
        true
    } else {
        bare_char(w[0]) && bare(w.drop_first())
    }
}

proof fn lemma_bare(w: Seq<char>)
    requires
        bare(w),
    ensures
        forall|i: int| 0 <= i < w.len() ==> bare_char(#[trigger] w[i]),
    decreases w.len(),
{
    if w.len() > 0 {
        lemma_bare(w.drop_first());
        assert forall|i: int| 0 <= i < w.len() implies bare_char(#[trigger] w[i]) by {
            if i > 0 {
                assert(w[i] == w.drop_first()[i - 1]);
            }
        }
    }
}

/// A project file of two lines: a section, and one setting in it.
pub open spec fn one_setting(section: Seq<char>, key: Seq<char>, value: Seq<char>) -> Seq<char> {
    seq!['['] + section + seq![']', '\n'] + key + seq![' ', '=', ' ', '"'] + value + seq!['"', '\n']
}

/// The word for what the setting `KEYS[k]` holds in `s`, as a project file writes it.
pub open spec fn setting_word(s: Settings, k: int) -> Seq<char> {
    if k == 0 {
        match s.division {
            Division::Truncated => "truncated"@,
            Division::Floored => "floored"@,
        }
    } else if k == 1 {
        match s.logic {
            Logic::StopsEarly => "stops-early"@,
            Logic::AsksBoth => "asks-both"@,
        }
    } else if k == 2 {
        match s.no_number {
            NoNumber::CarriesOn => "carries-on"@,
            NoNumber::Stops => "stops"@,
        }
    } else if k == 3 {
        match s.overflow {
            Overflow::Wrap => "wrap"@,
            Overflow::Trap => "trap"@,
        }
    } else if k == 4 {
        match s.characters {
            Characters::Clusters => "clusters"@,
            Characters::Letters => "letters"@,
        }
    } else if k == 5 {
        match s.min_max {
            MinMax::Skips => "skips"@,
            MinMax::Spreads => "spreads"@,
        }
    } else if k == 6 {
        match s.optimise {
            Optimise::Nothing => "none"@,
            Optimise::Speed => "speed"@,
            Optimise::SpeedAndSize => "speed-and-size"@,
        }
    } else {
        match s.engine {
            Engine::DevJit => "dev-jit"@,
            Engine::Interpreter => "interpreter"@,
        }
    }
}

proof fn lemma_first_at_is(s: Seq<char>, x: int, y: int, c: char, z: int)
    requires
        x <= z <= y,
        z < y ==> s[z] == c,
        forall|i: int| x <= i < z ==> s[i] != c,
    ensures
        first_at(s, x, y, c) == z,
    decreases z - x,
{
    if x < z {
        lemma_first_at_is(s, x + 1, y, c, z);
    }
}

/// Where each piece of [`one_setting`] stands in it.
spec fn laid_out(s: Seq<char>, section: Seq<char>, key: Seq<char>, value: Seq<char>) -> bool {
    let a = section.len() as int;
    let b = key.len() as int;
    let c = value.len() as int;
    let l = a + 3;
    &&& s.len() == l + b + c + 6
    &&& s[0] == '['
    &&& (forall|i: int| 0 <= i < a ==> s[1 + i] == #[trigger] section[i])
    &&& s[a + 1] == ']'
    &&& s[a + 2] == '\n'
    &&& (forall|i: int| 0 <= i < b ==> s[l + i] == #[trigger] key[i])
    &&& s[l + b] == ' '
    &&& s[l + b + 1] == '='
    &&& s[l + b + 2] == ' '
    &&& s[l + b + 3] == '"'
    &&& (forall|i: int| 0 <= i < c ==> s[l + b + 4 + i] == #[trigger] value[i])
    &&& s[l + b + 4 + c] == '"'
    &&& s[l + b + 5 + c] == '\n'
}

proof fn lemma_one_setting_laid_out(section: Seq<char>, key: Seq<char>, value: Seq<char>)
    ensures
        laid_out(one_setting(section, key, value), section, key, value),
{
    let s = one_setting(section, key, value);
    let a = section.len() as int;
    let b = key.len() as int;
    let c = value.len() as int;
    let l = a + 3;
    let p1 = seq!['['] + section;
    let p2 = p1 + seq![']', '\n'];
    let p3 = p2 + key;
    let p4 = p3 + seq![' ', '=', ' ', '"'];
    let p5 = p4 + value;
    assert(s == p5 + seq!['"', '\n']);
    assert forall|i: int| 0 <= i < a implies s[1 + i] == #[trigger] section[i] by {
        assert(p1[1 + i] == section[i]);
        assert(p5[1 + i] == p1[1 + i]);
    }
    assert forall|i: int| 0 <= i < b implies s[l + i] == #[trigger] key[i] by {
        assert(p3[l + i] == key[i]);
        assert(p5[l + i] == p3[l + i]);
    }
    assert forall|i: int| 0 <= i < c implies s[l + b + 4 + i] == #[trigger] value[i] by {
        assert(p5[l + b + 4 + i] == value[i]);
    }
    assert(p5[0] == '[');
    assert(p5[a + 1] == ']');
    assert(p5[a + 2] == '\n');
    assert(p5[l + b] == ' ');
    assert(p5[l + b + 1] == '=');
    assert(p5[l + b + 2] == ' ');
    assert(p5[l + b + 3] == '"');
}

/// The section line of [`one_setting`] ends where the setting line begins, and enters the
/// section.
#[verifier::spinoff_prover]
proof fn lemma_section_line(s: Seq<char>, section: Seq<char>, key: Seq<char>, value: Seq<char>, st: ReadState)
    requires
        laid_out(s, section, key, value),
        section.len() > 0,
        bare(section),
        section == "defaults"@ || section == "build"@ || section == "run"@,
        st.errors.len() == 0,
    ensures
        line_end(s, 0) == section.len() + 3int,
        after_line(st, s, 0, section.len() + 3int) == (ReadState { section, ..st }),
{
    lemma_bare(section);
    let a = section.len() as int;
    let l = a + 3;
    let n = s.len() as int;
    assert forall|i: int| 0 <= i < a + 2 implies s[i] != '\n' && s[i] != '#' by {
        if 1 <= i < a + 1 {
            assert(s[1 + (i - 1)] == section[i - 1]);
        }
    }
    lemma_first_at_is(s, 0, n, '\n', a + 2);
    lemma_first_at_is(s, 0, l, '#', l);
    assert(skip_white(s, 0, l) == 0);
    assert(drop_white(s, 0, a + 2) == a + 2);
    assert(drop_white(s, 0, l) == a + 2);
    assert(s[1 + 0int] == section[0]);
    assert(bare_char(section[0]));
    assert(skip_white(s, 1, a + 1) == 1);
    assert(s[1 + (a - 1)] == section[a - 1]);
    assert(bare_char(section[a - 1]));
    assert(drop_white(s, 1, a + 1) == a + 1);
    assert(s.subrange(1, a + 1) =~= section) by {
        assert forall|i: int| 0 <= i < a implies s.subrange(1, a + 1)[i] == section[i] by {
            assert(s[1 + i] == section[i]);
        }
    }
}

/// The setting line of [`one_setting`] runs to the end, and sets what it names.
#[verifier::spinoff_prover]
#[verifier::rlimit(40)]
proof fn lemma_setting_line(
    s: Seq<char>,
    section: Seq<char>,
    key: Seq<char>,
    value: Seq<char>,
    st: ReadState,
    k: int,
    j: int,
)
    requires
        laid_out(s, section, key, value),
        section == "defaults"@ || section == "build"@ || section == "run"@,
        st.section == section,
        key.len() > 0,
        value.len() > 0,
        bare(key),
        bare(value),
        key_index(section, key) == k,
        0 <= k,
        index_in(allowed(k), value, 0) == j,
        0 <= j,
    ensures
        line_end(s, section.len() + 3int) == s.len(),
        after_line(st, s, section.len() + 3int, s.len() as int) == (ReadState {
            settings: chosen(st.settings, k, j),
            ..st
        }),
{
    reveal_strlit("defaults");
    reveal_strlit("build");
    reveal_strlit("run");
    reveal_strlit("program.files");
    lemma_bare(key);
    lemma_bare(value);
    let a = section.len() as int;
    let b = key.len() as int;
    let c = value.len() as int;
    let l = a + 3;
    let n = s.len() as int;
    assert forall|i: int| l <= i < n - 1 implies s[i] != '\n' && s[i] != '#' by {
        if l <= i < l + b {
            assert(s[l + (i - l)] == key[i - l]);
            assert(bare_char(key[i - l]));
        } else if l + b + 4 <= i < l + b + 4 + c {
            assert(s[l + b + 4 + (i - (l + b + 4))] == value[i - (l + b + 4)]);
            assert(bare_char(value[i - (l + b + 4)]));
        }
    }
    lemma_first_at_is(s, l, n, '\n', n - 1);
    lemma_first_at_is(s, l, n, '#', n);
    assert(s[l + 0int] == key[0]);
    assert(bare_char(key[0]));
    assert(skip_white(s, l, n) == l);
    assert(drop_white(s, l, n - 1) == n - 1);
    assert(drop_white(s, l, n) == n - 1);
    assert(section != "program.files"@);
    assert forall|i: int| l <= i < l + b + 1 implies s[i] != '=' by {
        if l <= i < l + b {
            assert(s[l + (i - l)] == key[i - l]);
            assert(bare_char(key[i - l]));
        }
    }
    let eq = l + b + 1;
    lemma_first_at_is(s, l, n - 1, '=', eq);
    assert(skip_white(s, l, eq) == l);
    assert(s[l + (b - 1)] == key[b - 1]);
    assert(bare_char(key[b - 1]));
    assert(drop_white(s, l, eq - 1) == eq - 1);
    assert(drop_white(s, l, eq) == eq - 1);
    assert(skip_white(s, eq + 2, n - 1) == eq + 2);
    assert(skip_white(s, eq + 1, n - 1) == eq + 2);
    assert(drop_white(s, eq + 2, n - 1) == n - 1);
    assert(s[l + b + 4 + 0int] == value[0]);
    assert(bare_char(value[0]));
    assert(skip_char(s, eq + 3, n - 1, '"') == eq + 3);
    assert(skip_char(s, eq + 2, n - 1, '"') == eq + 3);
    assert(s[l + b + 4 + (c - 1)] == value[c - 1]);
    assert(bare_char(value[c - 1]));
    assert(drop_char(s, eq + 3, n - 2, '"') == n - 2);
    assert(drop_char(s, eq + 3, n - 1, '"') == n - 2);
    assert(s.subrange(l, l + b) =~= key) by {
        assert forall|i: int| 0 <= i < b implies s.subrange(l, l + b)[i] == key[i] by {
            assert(s[l + i] == key[i]);
        }
    }
    assert(s.subrange(eq + 3, n - 2) =~= value) by {
        assert forall|i: int| 0 <= i < c implies s.subrange(eq + 3, n - 2)[i] == value[i] by {
            assert(s[l + b + 4 + i] == value[i]);
        }
    }
    assert(setting_line(st, s, l, n, l, eq, n - 1) == (ReadState {
        settings: chosen(st.settings, k, j),
        ..st
    }));
}

/// What reading a section line and one known setting in it comes to.
proof fn lemma_reads_one_setting(section: Seq<char>, key: Seq<char>, value: Seq<char>, k: int, j: int)
    requires
        section == "defaults"@ || section == "build"@ || section == "run"@,
        section.len() > 0,
        bare(section),
        key.len() > 0,
        value.len() > 0,
        bare(key),
        bare(value),
        key_index(section, key) == k,
        0 <= k,
        index_in(allowed(k), value, 0) == j,
        0 <= j,
    ensures
        read_text(one_setting(section, key, value)) == (ReadState {
            settings: chosen(defaults(), k, j),
            errors: Seq::empty(),
            files: Seq::empty(),
            section,
        }),
{
    let s = one_setting(section, key, value);
    lemma_one_setting_laid_out(section, key, value);
    let l = section.len() + 3int;
    let n = s.len() as int;
    let st0 = ReadState {
        settings: defaults(),
        errors: Seq::empty(),
        files: Seq::empty(),
        section: Seq::empty(),
    };
    lemma_section_line(s, section, key, value, st0);
    let st1 = ReadState { section, ..st0 };
    assert(read_from(s, 0, st0) == read_from(s, l, st1));
    lemma_setting_line(s, section, key, value, st1, k, j);
    let st2 = ReadState { settings: chosen(defaults(), k, j), ..st1 };
    assert(read_from(s, l, st1) == read_from(s, n, st2));
}

/// The setting `KEYS[k]` is found under its own section and name, and under no earlier
/// one.
proof fn lemma_key_index_from(section: Seq<char>, key: Seq<char>, i: int, k: int)
    requires
        0 <= i <= k < 8,
        KEYS@[k].0@ == section && KEYS@[k].1@ == key,
        forall|m: int| i <= m < k ==> !(KEYS@[m].0@ == section && #[trigger] KEYS@[m].1@ == key),
    ensures
        key_index_from(section, key, i) == k,
    decreases k - i,
{
    if i < k {
        lemma_key_index_from(section, key, i + 1, k);
    }
}

/// Every word a setting line of [`one_setting`] is made of, for `KEYS[k]` and its `j`th
/// value, is bare, and it names that setting and that value.
#[verifier::rlimit(80)]
proof fn lemma_words_of(k: int, j: int)
    requires
        0 <= k < 8,
        0 <= j < allowed(k).len(),
    ensures
        KEYS@[k].0@ == "defaults"@ || KEYS@[k].0@ == "build"@ || KEYS@[k].0@ == "run"@,
        KEYS@[k].0@.len() > 0,
        bare(KEYS@[k].0@),
        KEYS@[k].1@.len() > 0,
        bare(KEYS@[k].1@),
        allowed(k)[j].len() > 0,
        bare(allowed(k)[j]),
        key_index(KEYS@[k].0@, KEYS@[k].1@) == k,
        index_in(allowed(k), allowed(k)[j], 0) == j,
{
    reveal_with_fuel(bare, 16);
    reveal_strlit("asks-both");
    reveal_strlit("build");
    reveal_strlit("carries-on");
    reveal_strlit("characters");
    reveal_strlit("clusters");
    reveal_strlit("defaults");
    reveal_strlit("dev-jit");
    reveal_strlit("division");
    reveal_strlit("engine");
    reveal_strlit("floored");
    reveal_strlit("interpreter");
    reveal_strlit("letters");
    reveal_strlit("logic");
    reveal_strlit("min-max");
    reveal_strlit("no-number");
    reveal_strlit("none");
    reveal_strlit("optimise");
    reveal_strlit("overflow");
    reveal_strlit("run");
    reveal_strlit("skips");
    reveal_strlit("speed");
    reveal_strlit("speed-and-size");
    reveal_strlit("spreads");
    reveal_strlit("stops");
    reveal_strlit("stops-early");
    reveal_strlit("trap");
    reveal_strlit("truncated");
    reveal_strlit("wrap");
    if k == 0 {
        lemma_key_index_from(KEYS@[0].0@, KEYS@[0].1@, 0, 0);
        if j == 0 {
            assert(index_in(allowed(0), allowed(0)[0], 0) == 0);
        }
        if j == 1 {
            assert("truncated"@.len() != "floored"@.len());
            assert(allowed(0)[0] != allowed(0)[1]);
            assert(index_in(allowed(0), allowed(0)[1], 0) == index_in(allowed(0), allowed(0)[1], 1));
            assert(index_in(allowed(0), allowed(0)[1], 1) == 1);
        }
    }
    if k == 1 {
        assert("division"@.len() != "logic"@.len());
        assert(KEYS@[0].1@ != KEYS@[1].1@);
        lemma_key_index_from(KEYS@[1].0@, KEYS@[1].1@, 0, 1);
        if j == 0 {
            assert(index_in(allowed(1), allowed(1)[0], 0) == 0);
        }
        if j == 1 {
            assert("stops-early"@.len() != "asks-both"@.len());
            assert(allowed(1)[0] != allowed(1)[1]);
            assert(index_in(allowed(1), allowed(1)[1], 0) == index_in(allowed(1), allowed(1)[1], 1));
            assert(index_in(allowed(1), allowed(1)[1], 1) == 1);
        }
    }
    if k == 2 {
        assert("division"@.len() != "no-number"@.len());
        assert(KEYS@[0].1@ != KEYS@[2].1@);
        assert("logic"@.len() != "no-number"@.len());
        assert(KEYS@[1].1@ != KEYS@[2].1@);
        lemma_key_index_from(KEYS@[2].0@, KEYS@[2].1@, 0, 2);
        if j == 0 {
            assert(index_in(allowed(2), allowed(2)[0], 0) == 0);
        }
        if j == 1 {
            assert("carries-on"@.len() != "stops"@.len());
            assert(allowed(2)[0] != allowed(2)[1]);
            assert(index_in(allowed(2), allowed(2)[1], 0) == index_in(allowed(2), allowed(2)[1], 1));
            assert(index_in(allowed(2), allowed(2)[1], 1) == 1);
        }
    }
    if k == 3 {
        assert("division"@[0] != "overflow"@[0]);
        assert(KEYS@[0].1@ != KEYS@[3].1@);
        assert("logic"@.len() != "overflow"@.len());
        assert(KEYS@[1].1@ != KEYS@[3].1@);
        assert("no-number"@.len() != "overflow"@.len());
        assert(KEYS@[2].1@ != KEYS@[3].1@);
        lemma_key_index_from(KEYS@[3].0@, KEYS@[3].1@, 0, 3);
        if j == 0 {
            assert(index_in(allowed(3), allowed(3)[0], 0) == 0);
        }
        if j == 1 {
            assert("wrap"@[0] != "trap"@[0]);
            assert(allowed(3)[0] != allowed(3)[1]);
            assert(index_in(allowed(3), allowed(3)[1], 0) == index_in(allowed(3), allowed(3)[1], 1));
            assert(index_in(allowed(3), allowed(3)[1], 1) == 1);
        }
    }
    if k == 4 {
        assert("division"@.len() != "characters"@.len());
        assert(KEYS@[0].1@ != KEYS@[4].1@);
        assert("logic"@.len() != "characters"@.len());
        assert(KEYS@[1].1@ != KEYS@[4].1@);
        assert("no-number"@.len() != "characters"@.len());
        assert(KEYS@[2].1@ != KEYS@[4].1@);
        assert("overflow"@.len() != "characters"@.len());
        assert(KEYS@[3].1@ != KEYS@[4].1@);
        lemma_key_index_from(KEYS@[4].0@, KEYS@[4].1@, 0, 4);
        if j == 0 {
            assert(index_in(allowed(4), allowed(4)[0], 0) == 0);
        }
        if j == 1 {
            assert("clusters"@.len() != "letters"@.len());
            assert(allowed(4)[0] != allowed(4)[1]);
            assert(index_in(allowed(4), allowed(4)[1], 0) == index_in(allowed(4), allowed(4)[1], 1));
            assert(index_in(allowed(4), allowed(4)[1], 1) == 1);
        }
    }
    if k == 5 {
        assert("division"@.len() != "min-max"@.len());
        assert(KEYS@[0].1@ != KEYS@[5].1@);
        assert("logic"@.len() != "min-max"@.len());
        assert(KEYS@[1].1@ != KEYS@[5].1@);
        assert("no-number"@.len() != "min-max"@.len());
        assert(KEYS@[2].1@ != KEYS@[5].1@);
        assert("overflow"@.len() != "min-max"@.len());
        assert(KEYS@[3].1@ != KEYS@[5].1@);
        assert("characters"@.len() != "min-max"@.len());
        assert(KEYS@[4].1@ != KEYS@[5].1@);
        lemma_key_index_from(KEYS@[5].0@, KEYS@[5].1@, 0, 5);
        if j == 0 {
            assert(index_in(allowed(5), allowed(5)[0], 0) == 0);
        }
        if j == 1 {
            assert("skips"@.len() != "spreads"@.len());
            assert(allowed(5)[0] != allowed(5)[1]);
            assert(index_in(allowed(5), allowed(5)[1], 0) == index_in(allowed(5), allowed(5)[1], 1));
            assert(index_in(allowed(5), allowed(5)[1], 1) == 1);
        }
    }
    if k == 6 {
        assert("division"@[0] != "optimise"@[0]);
        assert(KEYS@[0].1@ != KEYS@[6].1@);
        assert("logic"@.len() != "optimise"@.len());
        assert(KEYS@[1].1@ != KEYS@[6].1@);
        assert("no-number"@.len() != "optimise"@.len());
        assert(KEYS@[2].1@ != KEYS@[6].1@);
        assert("overflow"@[1] != "optimise"@[1]);
        assert(KEYS@[3].1@ != KEYS@[6].1@);
        assert("characters"@.len() != "optimise"@.len());
        assert(KEYS@[4].1@ != KEYS@[6].1@);
        assert("min-max"@.len() != "optimise"@.len());
        assert(KEYS@[5].1@ != KEYS@[6].1@);
        lemma_key_index_from(KEYS@[6].0@, KEYS@[6].1@, 0, 6);
        if j == 0 {
            assert(index_in(allowed(6), allowed(6)[0], 0) == 0);
        }
        if j == 1 {
            assert("none"@.len() != "speed"@.len());
            assert(allowed(6)[0] != allowed(6)[1]);
            assert(index_in(allowed(6), allowed(6)[1], 0) == index_in(allowed(6), allowed(6)[1], 1));
            assert(index_in(allowed(6), allowed(6)[1], 1) == 1);
        }
        if j == 2 {
            assert("none"@.len() != "speed-and-size"@.len());
            assert(allowed(6)[0] != allowed(6)[2]);
            assert(index_in(allowed(6), allowed(6)[2], 0) == index_in(allowed(6), allowed(6)[2], 1));
            assert("speed"@.len() != "speed-and-size"@.len());
            assert(allowed(6)[1] != allowed(6)[2]);
            assert(index_in(allowed(6), allowed(6)[2], 1) == index_in(allowed(6), allowed(6)[2], 2));
            assert(index_in(allowed(6), allowed(6)[2], 2) == 2);
        }
    }
    if k == 7 {
        assert("division"@.len() != "engine"@.len());
        assert(KEYS@[0].1@ != KEYS@[7].1@);
        assert("logic"@.len() != "engine"@.len());
        assert(KEYS@[1].1@ != KEYS@[7].1@);
        assert("no-number"@.len() != "engine"@.len());
        assert(KEYS@[2].1@ != KEYS@[7].1@);
        assert("overflow"@.len() != "engine"@.len());
        assert(KEYS@[3].1@ != KEYS@[7].1@);
        assert("characters"@.len() != "engine"@.len());
        assert(KEYS@[4].1@ != KEYS@[7].1@);
        assert("min-max"@.len() != "engine"@.len());
        assert(KEYS@[5].1@ != KEYS@[7].1@);
        assert("optimise"@.len() != "engine"@.len());
        assert(KEYS@[6].1@ != KEYS@[7].1@);
        lemma_key_index_from(KEYS@[7].0@, KEYS@[7].1@, 0, 7);
        if j == 0 {
            assert(index_in(allowed(7), allowed(7)[0], 0) == 0);
        }
        if j == 1 {
            assert("dev-jit"@.len() != "interpreter"@.len());
            assert(allowed(7)[0] != allowed(7)[1]);
            assert(index_in(allowed(7), allowed(7)[1], 0) == index_in(allowed(7), allowed(7)[1], 1));
            assert(index_in(allowed(7), allowed(7)[1], 1) == 1);
        }
    }
}

/// For every setting in [`KEYS`] and every value it allows, reading a file that sets only
/// that one, under its own section, gives it the value written and leaves every other
/// setting at its default, with nothing reported: `[defaults]` and `overflow = "trap"` is
/// `trap`, and `wrap` is `wrap`.
pub proof fn law_a_setting_takes_the_value_written(k: int, j: int)
    requires
        0 <= k < 8,
        0 <= j < allowed(k).len(),
    ensures
        ({
            let r = read_text(one_setting(KEYS@[k].0@, KEYS@[k].1@, allowed(k)[j]));
            &&& setting_word(r.settings, k) == allowed(k)[j]
            &&& forall|o: int|
                0 <= o < 8 && o != k ==> #[trigger] setting_word(r.settings, o) == setting_word(
                    defaults(),
                    o,
                )
            &&& r.errors.len() == 0
            &&& r.files.len() == 0
        }),
{
    lemma_words_of(k, j);
    lemma_reads_one_setting(KEYS@[k].0@, KEYS@[k].1@, allowed(k)[j], k, j);
}

/// Two values a setting allows are two different settings: reading one and reading the
/// other never leave the settings the same.
pub proof fn law_different_values_are_different_settings(k: int, j: int, i: int)
    requires
        0 <= k < 8,
        0 <= j < allowed(k).len(),
        0 <= i < allowed(k).len(),
        i != j,
    ensures
        read_text(one_setting(KEYS@[k].0@, KEYS@[k].1@, allowed(k)[j])).settings != read_text(
            one_setting(KEYS@[k].0@, KEYS@[k].1@, allowed(k)[i]),
        ).settings,
{
    law_a_setting_takes_the_value_written(k, j);
    law_a_setting_takes_the_value_written(k, i);
    lemma_words_of(k, j);
    lemma_words_of(k, i);
}

} // verus!
