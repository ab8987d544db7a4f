//! Grapheme clusters, and how wide they draw.
//!
//! A "character" as a reader counts them is a **grapheme cluster**: one or more Unicode
//! scalars that combine into a single thing on the page. `é` written as `e` plus a
//! combining acute is one. A flag is one. A family emoji is one, though it is seven
//! scalars welded together with zero-width joiners and twenty-five bytes on disk.
//!
//! This is a subset of UAX #29: the rules for joining, marks, flags, Hangul and emoji
//! sequences are here, and the property tables are ranges chosen to cover what appears in
//! real source. Where it is wrong it is wrong by splitting a cluster that should have held
//! together, which moves a caret rather than crashing anything.

use vstd::prelude::*;
use vstd::utf8::*;
use crate::text::{
    char_width, chars_of, lemma_boundary_after_chars, lemma_encode_concat, lemma_encode_push,
    utf8_width,
};

verus! {

broadcast use vstd::utf8::group_utf8_lib, vstd::string::group_string_axioms;

/// Zero-width joiner: the glue inside a joined emoji.
pub const ZWJ: char = '\u{200D}';

/// Whether the scalar continues whatever came before it rather than starting something.
pub open spec fn extends(c: char) -> bool {
    let u = c as u32;
    ||| 0x0300 <= u <= 0x036F
    ||| 0x0483 <= u <= 0x0489
    ||| 0x0591 <= u <= 0x05BD ||| u == 0x05BF ||| 0x05C1 <= u <= 0x05C2
    ||| 0x05C4 <= u <= 0x05C5 ||| u == 0x05C7
    ||| 0x0610 <= u <= 0x061A ||| 0x064B <= u <= 0x065F ||| u == 0x0670
    ||| 0x06D6 <= u <= 0x06DC ||| 0x06DF <= u <= 0x06E4 ||| 0x06E7 <= u <= 0x06E8
    ||| 0x06EA <= u <= 0x06ED
    ||| u == 0x0711 ||| 0x0730 <= u <= 0x074A ||| 0x07A6 <= u <= 0x07B0
    ||| 0x07EB <= u <= 0x07F3
    ||| 0x0816 <= u <= 0x0819 ||| 0x081B <= u <= 0x0823 ||| 0x0825 <= u <= 0x0827
    ||| 0x0829 <= u <= 0x082D
    ||| 0x0900 <= u <= 0x0902 ||| u == 0x093A ||| u == 0x093C ||| 0x0941 <= u <= 0x0948
    ||| u == 0x094D
    ||| 0x0951 <= u <= 0x0957 ||| 0x0962 <= u <= 0x0963
    ||| u == 0x0E31 ||| 0x0E34 <= u <= 0x0E3A ||| 0x0E47 <= u <= 0x0E4E
    ||| 0x1AB0 <= u <= 0x1AFF ||| 0x1DC0 <= u <= 0x1DFF
    ||| 0x200B <= u <= 0x200F
    ||| 0x20D0 <= u <= 0x20F0
    ||| 0xFE00 <= u <= 0xFE0F
    ||| 0xFE20 <= u <= 0xFE2F
    ||| 0x1F3FB <= u <= 0x1F3FF
    ||| 0xE0020 <= u <= 0xE007F
    ||| 0xE0100 <= u <= 0xE01EF
}

/// One half of a flag. Two in a row make one.
pub open spec fn regional(c: char) -> bool {
    0x1F1E6 <= c as u32 <= 0x1F1FF
}

/// Emoji and the older symbols that behave like them when joined.
pub open spec fn pictographic(c: char) -> bool {
    let u = c as u32;
    ||| u == 0x00A9 ||| u == 0x00AE ||| u == 0x203C ||| u == 0x2049 ||| u == 0x2122
    ||| u == 0x2139
    ||| 0x2194 <= u <= 0x21AA
    ||| 0x231A <= u <= 0x231B ||| u == 0x2328 ||| 0x23CF <= u <= 0x23FA
    ||| u == 0x24C2 ||| 0x25AA <= u <= 0x25FE
    ||| 0x2600 <= u <= 0x27BF
    ||| 0x2934 <= u <= 0x2935 ||| 0x2B00 <= u <= 0x2BFF
    ||| u == 0x3030 ||| u == 0x303D ||| u == 0x3297 ||| u == 0x3299
    ||| 0x1F000 <= u <= 0x1FAFF
}

/// Drawn in two terminal cells because of the script it belongs to.
pub open spec fn east_asian_wide(c: char) -> bool {
    let u = c as u32;
    ||| 0x1100 <= u <= 0x115F
    ||| 0x2E80 <= u <= 0x303E ||| 0x3041 <= u <= 0x33FF
    ||| 0x3400 <= u <= 0x4DBF ||| 0x4E00 <= u <= 0x9FFF
    ||| 0xA000 <= u <= 0xA4CF
    ||| 0xAC00 <= u <= 0xD7A3
    ||| 0xF900 <= u <= 0xFAFF
    ||| 0xFE10 <= u <= 0xFE19 ||| 0xFE30 <= u <= 0xFE6F
    ||| 0xFF00 <= u <= 0xFF60 ||| 0xFFE0 <= u <= 0xFFE6
    ||| 0x20000 <= u <= 0x3FFFD
}

pub open spec fn hangul_l(c: char) -> bool {
    let u = c as u32;
    0x1100 <= u <= 0x115F || 0xA960 <= u <= 0xA97C
}

pub open spec fn hangul_v(c: char) -> bool {
    let u = c as u32;
    0x1160 <= u <= 0x11A7 || 0xD7B0 <= u <= 0xD7C6
}

pub open spec fn hangul_t(c: char) -> bool {
    let u = c as u32;
    0x11A8 <= u <= 0x11FF || 0xD7CB <= u <= 0xD7FB
}

/// A precomposed Hangul syllable with no trailing consonant.
pub open spec fn hangul_lv(c: char) -> bool {
    let u = c as u32;
    0xAC00 <= u <= 0xD7A3 && (u - 0xAC00) % 28 == 0
}

/// A precomposed Hangul syllable that already has its trailing consonant.
pub open spec fn hangul_lvt(c: char) -> bool {
    let u = c as u32;
    0xAC00 <= u <= 0xD7A3 && (u - 0xAC00) % 28 != 0
}

/// Everything a terminal treats as a command rather than a mark on the page.
pub open spec fn control(c: char) -> bool {
    let u = c as u32;
    ||| (u < 0x20 && c != '\r' && c != '\n')
    ||| u == 0x7F
    ||| 0x80 <= u <= 0x9F
    ||| u == 0x2028
    ||| u == 0x2029
}

fn is_extend(c: char) -> (r: bool)
    ensures
        r == extends(c),
{
    let u = c as u32;
    (0x0300 <= u && u <= 0x036F) || (0x0483 <= u && u <= 0x0489) || (0x0591 <= u && u
        <= 0x05BD) || u == 0x05BF || (0x05C1 <= u && u <= 0x05C2) || (0x05C4 <= u && u
        <= 0x05C5) || u == 0x05C7 || (0x0610 <= u && u <= 0x061A) || (0x064B <= u && u
        <= 0x065F) || u == 0x0670 || (0x06D6 <= u && u <= 0x06DC) || (0x06DF <= u && u
        <= 0x06E4) || (0x06E7 <= u && u <= 0x06E8) || (0x06EA <= u && u <= 0x06ED) || u
        == 0x0711 || (0x0730 <= u && u <= 0x074A) || (0x07A6 <= u && u <= 0x07B0) || (
    0x07EB <= u && u <= 0x07F3) || (0x0816 <= u && u <= 0x0819) || (0x081B <= u && u
        <= 0x0823) || (0x0825 <= u && u <= 0x0827) || (0x0829 <= u && u <= 0x082D) || (
    0x0900 <= u && u <= 0x0902) || u == 0x093A || u == 0x093C || (0x0941 <= u && u
        <= 0x0948) || u == 0x094D || (0x0951 <= u && u <= 0x0957) || (0x0962 <= u && u
        <= 0x0963) || u == 0x0E31 || (0x0E34 <= u && u <= 0x0E3A) || (0x0E47 <= u && u
        <= 0x0E4E) || (0x1AB0 <= u && u <= 0x1AFF) || (0x1DC0 <= u && u <= 0x1DFF) || (
    0x200B <= u && u <= 0x200F) || (0x20D0 <= u && u <= 0x20F0) || (0xFE00 <= u && u
        <= 0xFE0F) || (0xFE20 <= u && u <= 0xFE2F) || (0x1F3FB <= u && u <= 0x1F3FF) || (
    0xE0020 <= u && u <= 0xE007F) || (0xE0100 <= u && u <= 0xE01EF)
}

fn is_regional_indicator(c: char) -> (r: bool)
    ensures
        r == regional(c),
{
    let u = c as u32;
    0x1F1E6 <= u && u <= 0x1F1FF
}

fn is_pictographic(c: char) -> (r: bool)
    ensures
        r == pictographic(c),
{
    let u = c as u32;
    u == 0x00A9 || u == 0x00AE || u == 0x203C || u == 0x2049 || u == 0x2122 || u == 0x2139
        || (0x2194 <= u && u <= 0x21AA) || (0x231A <= u && u <= 0x231B) || u == 0x2328 || (
    0x23CF <= u && u <= 0x23FA) || u == 0x24C2 || (0x25AA <= u && u <= 0x25FE) || (0x2600
        <= u && u <= 0x27BF) || (0x2934 <= u && u <= 0x2935) || (0x2B00 <= u && u <= 0x2BFF)
        || u == 0x3030 || u == 0x303D || u == 0x3297 || u == 0x3299 || (0x1F000 <= u && u
        <= 0x1FAFF)
}

fn is_east_asian_wide(c: char) -> (r: bool)
    ensures
        r == east_asian_wide(c),
{
    let u = c as u32;
    (0x1100 <= u && u <= 0x115F) || (0x2E80 <= u && u <= 0x303E) || (0x3041 <= u && u
        <= 0x33FF) || (0x3400 <= u && u <= 0x4DBF) || (0x4E00 <= u && u <= 0x9FFF) || (
    0xA000 <= u && u <= 0xA4CF) || (0xAC00 <= u && u <= 0xD7A3) || (0xF900 <= u && u
        <= 0xFAFF) || (0xFE10 <= u && u <= 0xFE19) || (0xFE30 <= u && u <= 0xFE6F) || (
    0xFF00 <= u && u <= 0xFF60) || (0xFFE0 <= u && u <= 0xFFE6) || (0x20000 <= u && u
        <= 0x3FFFD)
}

fn is_hangul_l(c: char) -> (r: bool)
    ensures
        r == hangul_l(c),
{
    let u = c as u32;
    (0x1100 <= u && u <= 0x115F) || (0xA960 <= u && u <= 0xA97C)
}

fn is_hangul_v(c: char) -> (r: bool)
    ensures
        r == hangul_v(c),
{
    let u = c as u32;
    (0x1160 <= u && u <= 0x11A7) || (0xD7B0 <= u && u <= 0xD7C6)
}

fn is_hangul_t(c: char) -> (r: bool)
    ensures
        r == hangul_t(c),
{
    let u = c as u32;
    (0x11A8 <= u && u <= 0x11FF) || (0xD7CB <= u && u <= 0xD7FB)
}

fn is_hangul_lv(c: char) -> (r: bool)
    ensures
        r == hangul_lv(c),
{
    let u = c as u32;
    0xAC00 <= u && u <= 0xD7A3 && (u - 0xAC00) % 28 == 0
}

fn is_hangul_lvt(c: char) -> (r: bool)
    ensures
        r == hangul_lvt(c),
{
    let u = c as u32;
    0xAC00 <= u && u <= 0xD7A3 && (u - 0xAC00) % 28 != 0
}

fn is_control(c: char) -> (r: bool)
    ensures
        r == control(c),
{
    let u = c as u32;
    (u < 0x20 && c != '\r' && c != '\n') || u == 0x7F || (0x80 <= u && u <= 0x9F) || u
        == 0x2028 || u == 0x2029
}

/// What the walk needs to remember about what it has already passed.
#[derive(Clone, Copy)]
pub struct Run {
    /// An odd number of regional indicators so far, so the next one completes a flag.
    pub flag_half_open: bool,
    /// A pictograph, possibly followed by marks, so a joiner here can attach the next one.
    pub joinable: bool,
}

impl Run {
    /// Nothing passed yet.
    pub open spec fn fresh() -> Run {
        Run { flag_half_open: false, joinable: false }
    }

    /// What the walk remembers once it has also passed `c`.
    pub open spec fn observed(self, c: char) -> Run {
        Run {
            flag_half_open: regional(c) && !self.flag_half_open,
            joinable: if pictographic(c) {
                true
            } else if !extends(c) && c != ZWJ {
                false
            } else {
                self.joinable
            },
        }
    }

    fn observe(&mut self, c: char)
        ensures
            *final(self) == old(self).observed(c),
    {
        self.flag_half_open = is_regional_indicator(c) && !self.flag_half_open;
        if is_pictographic(c) {
            self.joinable = true;
        } else if !is_extend(c) && c != ZWJ {
            self.joinable = false;
        }
    }
}

/// Whether a cluster boundary falls between these two scalars, given what came before.
pub open spec fn breaks(prev: char, next: char, run: Run) -> bool {
    if prev == '\r' && next == '\n' {
        false
    } else if control(prev) || prev == '\r' || prev == '\n' {
        true
    } else if control(next) || next == '\r' || next == '\n' {
        true
    } else if hangul_l(prev) && (hangul_l(next) || hangul_v(next) || hangul_lv(next)
        || hangul_lvt(next)) {
        false
    } else if (hangul_lv(prev) || hangul_v(prev)) && (hangul_v(next) || hangul_t(next)) {
        false
    } else if (hangul_lvt(prev) || hangul_t(prev)) && hangul_t(next) {
        false
    } else if extends(next) || next == ZWJ {
        false
    } else if prev == ZWJ && run.joinable && pictographic(next) {
        false
    } else if regional(prev) && regional(next) && run.flag_half_open {
        false
    } else {
        true
    }
}

fn breaks_between(prev: char, next: char, run: &Run) -> (r: bool)
    ensures
        r == breaks(prev, next, *run),
{
    if prev == '\r' && next == '\n' {
        return false;
    }
    if is_control(prev) || prev == '\r' || prev == '\n' {
        return true;
    }
    if is_control(next) || next == '\r' || next == '\n' {
        return true;
    }
    if is_hangul_l(prev) && (is_hangul_l(next) || is_hangul_v(next) || is_hangul_lv(next)
        || is_hangul_lvt(next)) {
        return false;
    }
    if (is_hangul_lv(prev) || is_hangul_v(prev)) && (is_hangul_v(next) || is_hangul_t(next)) {
        return false;
    }
    if (is_hangul_lvt(prev) || is_hangul_t(prev)) && is_hangul_t(next) {
        return false;
    }
    if is_extend(next) || next == ZWJ {
        return false;
    }
    if prev == ZWJ && run.joinable && is_pictographic(next) {
        return false;
    }
    if is_regional_indicator(prev) && is_regional_indicator(next) && run.flag_half_open {
        return false;
    }
    true
}

/// Where the cluster that holds `s[i - 1]` ends, walking on from `i` with what the walk
/// has remembered so far.
pub open spec fn cluster_end_from(s: Seq<char>, i: int, run: Run) -> int
    decreases s.len() - i,
{
    if i <= 0 || i >= s.len() {
        s.len() as int
    } else if breaks(s[i - 1], s[i], run) {
        i
    } else {
        cluster_end_from(s, i + 1, run.observed(s[i]))
    }
}

/// How many scalars the first cluster of `s` is made of.
pub open spec fn first_cluster_len(s: Seq<char>) -> int {
    if s.len() == 0 {
        0
    } else {
        cluster_end_from(s, 1, Run::fresh().observed(s[0]))
    }
}

pub proof fn lemma_cluster_end_bounds(s: Seq<char>, i: int, run: Run)
    requires
        1 <= i,
    ensures
        s.len() > 0 ==> i <= cluster_end_from(s, i, run) || cluster_end_from(s, i, run)
            == s.len(),
        cluster_end_from(s, i, run) <= s.len(),
        cluster_end_from(s, i, run) >= 1 || s.len() == 0,
    decreases s.len() - i,
{
    if i < s.len() && !breaks(s[i - 1], s[i], run) {
        lemma_cluster_end_bounds(s, i + 1, run.observed(s[i]));
    }
}

pub proof fn lemma_first_cluster_len(s: Seq<char>)
    ensures
        s.len() > 0 ==> 1 <= first_cluster_len(s) <= s.len(),
        s.len() == 0 ==> first_cluster_len(s) == 0,
{
    if s.len() > 0 {
        lemma_cluster_end_bounds(s, 1, Run::fresh().observed(s[0]));
    }
}

/// The grapheme clusters of `s`, in order.
pub open spec fn clusters(s: Seq<char>) -> Seq<Seq<char>>
    decreases s.len(),
{
    if s.len() == 0 {
        Seq::empty()
    } else {
        let n = first_cluster_len(s);
        proof {
            lemma_first_cluster_len(s);
        }
        seq![s.take(n)] + clusters(s.skip(n))
    }
}

/// Every cluster laid end to end.
pub open spec fn joined(cs: Seq<Seq<char>>) -> Seq<char>
    decreases cs.len(),
{
    if cs.len() == 0 {
        Seq::empty()
    } else {
        cs[0] + joined(cs.drop_first())
    }
}

/// How many terminal cells one cluster draws in.
pub open spec fn drawn_width(cluster: Seq<char>) -> nat {
    if cluster.len() == 0 {
        0
    } else if cluster.contains('\u{FE0F}') {
        2
    } else if regional(cluster[0]) {
        2
    } else if 0x1F000 <= cluster[0] as u32 <= 0x1FAFF {
        2
    } else if east_asian_wide(cluster[0]) {
        2
    } else if control(cluster[0]) || extends(cluster[0]) {
        0
    } else {
        1
    }
}

/// The cells every cluster draws in, added up.
pub open spec fn total_width(cs: Seq<Seq<char>>) -> nat
    decreases cs.len(),
{
    if cs.len() == 0 {
        0
    } else {
        drawn_width(cs[0]) + total_width(cs.drop_first())
    }
}

/// Nothing lost and nothing added: the clusters of `s`, joined, are `s`.
pub proof fn law_clusters_join_back(s: Seq<char>)
    ensures
        joined(clusters(s)) == s,
    decreases s.len(),
{
    if s.len() > 0 {
        lemma_first_cluster_len(s);
        let n = first_cluster_len(s);
        law_clusters_join_back(s.skip(n));
        let cs = clusters(s);
        assert(cs[0] == s.take(n));
        assert(cs.drop_first() =~= clusters(s.skip(n)));
        assert(s.take(n) + s.skip(n) =~= s);
    }
}

/// No cluster is empty, so there are never more clusters than scalars.
pub proof fn law_clusters_are_never_empty(s: Seq<char>)
    ensures
        forall|i: int| 0 <= i < clusters(s).len() ==> #[trigger] clusters(s)[i].len() > 0,
        clusters(s).len() <= s.len(),
        s.len() > 0 ==> clusters(s).len() > 0,
    decreases s.len(),
{
    if s.len() > 0 {
        lemma_first_cluster_len(s);
        let n = first_cluster_len(s);
        law_clusters_are_never_empty(s.skip(n));
        let cs = clusters(s);
        assert forall|i: int| 0 <= i < cs.len() implies #[trigger] cs[i].len() > 0 by {
            if i > 0 {
                assert(cs[i] == clusters(s.skip(n))[i - 1]);
            }
        }
    }
}

/// A lone scalar is one cluster, and the whole string draws what that cluster draws.
pub proof fn law_one_scalar_is_one_cluster(c: char)
    ensures
        clusters(seq![c]) == seq![seq![c]],
        total_width(clusters(seq![c])) == drawn_width(seq![c]),
{
    let s = seq![c];
    lemma_first_cluster_len(s);
    assert(first_cluster_len(s) == 1);
    assert(s.take(1) =~= s);
    assert(s.skip(1) =~= Seq::<char>::empty());
    assert(clusters(s.skip(1)) == Seq::<Seq<char>>::empty());
    assert(clusters(s) == seq![s.take(1)] + clusters(s.skip(1)));
    assert(clusters(s) =~= seq![s]);
    let cs = seq![s];
    assert(cs.drop_first() =~= Seq::<Seq<char>>::empty());
    assert(total_width(cs) == drawn_width(cs[0]) + total_width(cs.drop_first()));
}

/// Every CJK unified ideograph (U+4E00 to U+9FFF) is drawn in two cells: a cluster that
/// starts with one draws two, and so does a string that is just that ideograph.
pub proof fn law_a_cjk_ideograph_draws_two_cells(cluster: Seq<char>)
    requires
        cluster.len() > 0,
        0x4E00 <= cluster[0] as u32 <= 0x9FFF,
    ensures
        drawn_width(cluster) == 2,
        total_width(clusters(seq![cluster[0]])) == 2,
{
    law_one_scalar_is_one_cluster(cluster[0]);
}

/// Every script that a terminal draws wide: Hangul leading jamo, the CJK radicals,
/// symbols, kana and compatibility forms, the CJK ideographs and their extensions, Yi,
/// Hangul syllables, the CJK compatibility ideographs, the vertical and small forms and
/// the fullwidth forms. A cluster that starts with any of them draws two cells, whatever
/// marks follow, and a string of that one scalar draws two cells too.
pub proof fn law_east_asian_scripts_draw_two_cells(cluster: Seq<char>)
    requires
        cluster.len() > 0,
        ({
            let u = cluster[0] as u32;
            ||| 0x1100 <= u <= 0x115F
            ||| 0x2E80 <= u <= 0x303E
            ||| 0x3041 <= u <= 0x33FF
            ||| 0x3400 <= u <= 0x4DBF
            ||| 0x4E00 <= u <= 0x9FFF
            ||| 0xA000 <= u <= 0xA4CF
            ||| 0xAC00 <= u <= 0xD7A3
            ||| 0xF900 <= u <= 0xFAFF
            ||| 0xFE10 <= u <= 0xFE19
            ||| 0xFE30 <= u <= 0xFE6F
            ||| 0xFF00 <= u <= 0xFF60
            ||| 0xFFE0 <= u <= 0xFFE6
            ||| 0x20000 <= u <= 0x3FFFD
        }),
    ensures
        drawn_width(cluster) == 2,
        total_width(clusters(seq![cluster[0]])) == 2,
{
    law_one_scalar_is_one_cluster(cluster[0]);
}

/// A printable ASCII character, on its own, is one cell wide: it is neither wide nor a
/// control character nor a mark.
pub proof fn law_printable_ascii_draws_one_cell(c: char)
    requires
        0x20 <= c as u32 <= 0x7E,
    ensures
        drawn_width(seq![c]) == 1,
        total_width(clusters(seq![c])) == 1,
{
    law_one_scalar_is_one_cluster(c);
    assert(!seq![c].contains('\u{FE0F}')) by {
        if seq![c].contains('\u{FE0F}') {
            let i = choose|i: int| 0 <= i < 1 && seq![c][i] == '\u{FE0F}';
            assert(seq![c][i] == c);
        }
    }
}

/// The clusters of `s`, starting at scalar `i`, reached from the clusters at `j` by one
/// step.
proof fn lemma_clusters_step(s: Seq<char>, i: int)
    requires
        0 <= i < s.len(),
    ensures
        1 <= first_cluster_len(s.skip(i)) <= s.len() - i,
        clusters(s.skip(i)) == seq![s.subrange(i, i + first_cluster_len(s.skip(i)))]
            + clusters(s.skip(i + first_cluster_len(s.skip(i)))),
{
    let t = s.skip(i);
    lemma_first_cluster_len(t);
    let n = first_cluster_len(t);
    assert(t.take(n) =~= s.subrange(i, i + n));
    assert(t.skip(n) =~= s.skip(i + n));
}

/// The end of the cluster that begins at `start`.
fn cluster_end(v: &Vec<char>, start: usize) -> (end: usize)
    requires
        start < v.len(),
    ensures
        end == start + first_cluster_len(v@.skip(start as int)),
        start < end <= v.len(),
{
    let ghost t = v@.skip(start as int);
    let mut run = Run { flag_half_open: false, joinable: false };
    run.observe(v[start]);
    let mut prev = v[start];
    let mut i = start + 1;
    proof {
        lemma_first_cluster_len(t);
    }
    while i < v.len()
        invariant
            start < i <= v.len(),
            t == v@.skip(start as int),
            prev == v@[i - 1],
            first_cluster_len(t) == cluster_end_from(t, (i - start) as int, run),
        decreases v.len() - i,
    {
        assert(t[i - start - 1] == prev);
        assert(t[(i - start) as int] == v@[i as int]);
        if breaks_between(prev, v[i], &run) {
            return i;
        }
        run.observe(v[i]);
        prev = v[i];
        i = i + 1;
    }
    assert(cluster_end_from(t, (i - start) as int, run) == t.len());
    i
}

/// The walk one reader's-character at a time over a string.
pub struct Graphemes<'a> {
    rest: &'a str,
}

impl<'a> View for Graphemes<'a> {
    type V = Seq<char>;

    /// What has not been walked yet.
    closed spec fn view(&self) -> Seq<char> {
        self.rest@
    }
}

impl<'a> Graphemes<'a> {
    /// The next cluster, or `None` once the string is used up.
    pub fn next(&mut self) -> (r: Option<&'a str>)
        ensures
            old(self)@.len() == 0 ==> r is None && final(self)@ == old(self)@,
            old(self)@.len() > 0 ==> r is Some && r->0@ == clusters(old(self)@)[0]
                && final(self)@ == old(self)@.skip(r->0@.len() as int),
            clusters(final(self)@) == if old(self)@.len() == 0 {
                clusters(old(self)@)
            } else {
                clusters(old(self)@).drop_first()
            },
    {
        let v = chars_of(self.rest);
        if v.len() == 0 {
            return None;
        }
        let n = cluster_end(&v, 0);
        let ghost s = v@;
        assert(s.skip(0) =~= s);
        let total = self.rest.as_bytes().len();
        let mut bytes: usize = 0;
        let mut k: usize = 0;
        while k < n
            invariant
                k <= n <= v.len(),
                s == v@,
                s == self.rest@,
                bytes == encode_utf8(s.take(k as int)).len(),
                bytes <= encode_utf8(s).len(),
                encode_utf8(s).len() == total,
            decreases n - k,
        {
            proof {
                lemma_encode_push(s.take(k as int), s[k as int]);
                assert(s.take(k as int).push(s[k as int]) =~= s.take(k + 1));
                lemma_encode_concat(s.take(k + 1), s.skip(k + 1));
                assert(s.take(k + 1) + s.skip(k + 1) =~= s);
            }
            bytes = bytes + char_width(v[k]);
            k = k + 1;
        }
        proof {
            lemma_boundary_after_chars(s, n as int);
            lemma_encode_concat(s.take(n as int), s.skip(n as int));
            assert(s.take(n as int) + s.skip(n as int) =~= s);
        }
        let (cluster, rest) = self.rest.split_at(bytes);
        proof {
            assert(encode_utf8(cluster@) =~= encode_utf8(s.take(n as int)));
            assert(decode_utf8(encode_utf8(cluster@)) == cluster@);
            assert(decode_utf8(encode_utf8(s.take(n as int))) == s.take(n as int));
            assert(encode_utf8(rest@) =~= encode_utf8(s.skip(n as int)));
            assert(decode_utf8(encode_utf8(rest@)) == rest@);
            assert(decode_utf8(encode_utf8(s.skip(n as int))) == s.skip(n as int));
            lemma_first_cluster_len(s);
        }
        self.rest = rest;
        Some(cluster)
    }
}

/// Walk a string one reader's-character at a time.
pub fn graphemes<'a>(s: &'a str) -> (g: Graphemes<'a>)
    ensures
        g@ == s@,
{
    Graphemes { rest: s }
}

/// How many clusters the scalars of `v` from `start` on are made of.
fn count_from(v: &Vec<char>, start: usize) -> (n: usize)
    requires
        start <= v.len(),
    ensures
        n == clusters(v@.skip(start as int)).len(),
{
    let mut i = start;
    let mut n: usize = 0;
    proof {
        law_clusters_are_never_empty(v@.skip(start as int));
    }
    while i < v.len()
        invariant
            start <= i <= v.len(),
            n + clusters(v@.skip(i as int)).len() == clusters(v@.skip(start as int)).len(),
            n <= i - start,
        decreases v.len() - i,
    {
        proof {
            lemma_clusters_step(v@, i as int);
        }
        let end = cluster_end(v, i);
        i = end;
        n = n + 1;
    }
    assert(v@.skip(i as int).len() == 0);
    n
}

/// How many characters a reader would say this is.
pub fn count(s: &str) -> (n: usize)
    ensures
        n == clusters(s@).len(),
{
    let v = chars_of(s);
    assert(v@.skip(0) =~= v@);
    count_from(&v, 0)
}

/// The width of the cluster `v[from..to]`.
fn width_of(v: &Vec<char>, from: usize, to: usize) -> (w: usize)
    requires
        from <= to <= v.len(),
    ensures
        w == drawn_width(v@.subrange(from as int, to as int)),
        w <= 2,
{
    let ghost c = v@.subrange(from as int, to as int);
    if from == to {
        return 0;
    }
    let first = v[from];
    assert(c[0] == first);
    let mut k = from;
    while k < to
        invariant
            from <= k <= to <= v.len(),
            c == v@.subrange(from as int, to as int),
            forall|j: int| from <= j < k ==> v@[j] != '\u{FE0F}',
        decreases to - k,
    {
        if v[k] == '\u{FE0F}' {
            assert(c[k - from] == '\u{FE0F}');
            return 2;
        }
        k = k + 1;
    }
    assert(!c.contains('\u{FE0F}')) by {
        assert forall|j: int| 0 <= j < c.len() implies c[j] != '\u{FE0F}' by {
            assert(c[j] == v@[from + j]);
        }
    }
    if is_regional_indicator(first) {
        return 2;
    }
    let u = first as u32;
    if 0x1F000 <= u && u <= 0x1FAFF {
        return 2;
    }
    if is_east_asian_wide(first) {
        return 2;
    }
    if is_control(first) || is_extend(first) {
        return 0;
    }
    1
}

/// How many terminal cells one cluster draws in.
///
/// Zero for a lone mark, two for anything emoji or East Asian, one otherwise.
pub fn cluster_width(cluster: &str) -> (w: usize)
    ensures
        w == drawn_width(cluster@),
{
    let v = chars_of(cluster);
    assert(v@.subrange(0, v@.len() as int) =~= v@);
    width_of(&v, 0, v.len())
}

/// How many terminal cells the whole string draws in.
///
/// This is what a caret has to be aligned by. It is not [`count`]: an emoji is one
/// character and two cells.
pub fn width(s: &str) -> (w: usize)
    ensures
        w == total_width(clusters(s@)),
{
    let v = chars_of(s);
    let total = s.as_bytes().len();
    let mut i: usize = 0;
    let mut w: usize = 0;
    assert(v@.skip(0) =~= v@);
    proof {
        lemma_total_width_bound(v@);
    }
    while i < v.len()
        invariant
            i <= v.len(),
            w + total_width(clusters(v@.skip(i as int))) == total_width(clusters(v@)),
            total_width(clusters(v@)) <= encode_utf8(v@).len(),
            encode_utf8(v@).len() == total,
            v@ == s@,
        decreases v.len() - i,
    {
        proof {
            lemma_clusters_step(v@, i as int);
        }
        let end = cluster_end(&v, i);
        let one = width_of(&v, i, end);
        proof {
            let cs = clusters(v@.skip(i as int));
            assert(cs[0] == v@.subrange(i as int, end as int));
            assert(cs.drop_first() =~= clusters(v@.skip(end as int)));
        }
        w = w + one;
        i = end;
    }
    assert(v@.skip(i as int).len() == 0);
    w
}

/// A string's encoding is at least as long as the encoding of any scalar in it.
proof fn lemma_encoding_holds_each(c: Seq<char>, j: int)
    requires
        0 <= j < c.len(),
    ensures
        encode_utf8(c).len() >= utf8_width(c[j]),
    decreases j,
{
    if j > 0 {
        lemma_encoding_holds_each(c.drop_first(), j - 1);
    }
}

/// A cluster never draws in more cells than it takes bytes.
proof fn lemma_drawn_width_bound(c: Seq<char>)
    ensures
        drawn_width(c) <= encode_utf8(c).len(),
{
    if c.len() > 0 {
        lemma_encoding_holds_each(c, 0);
        if c.contains('\u{FE0F}') {
            let j = choose|j: int| 0 <= j < c.len() && c[j] == '\u{FE0F}';
            lemma_encoding_holds_each(c, j);
        }
    }
}

/// No string draws in more cells than it takes bytes.
proof fn lemma_total_width_bound(s: Seq<char>)
    ensures
        total_width(clusters(s)) <= encode_utf8(s).len(),
    decreases s.len(),
{
    if s.len() > 0 {
        lemma_first_cluster_len(s);
        let n = first_cluster_len(s);
        lemma_total_width_bound(s.skip(n));
        let cs = clusters(s);
        assert(cs.drop_first() =~= clusters(s.skip(n)));
        lemma_drawn_width_bound(s.take(n));
        lemma_encode_concat(s.take(n), s.skip(n));
        assert(s.take(n) + s.skip(n) =~= s);
    }
}

} // verus!
