//! A program as the files it is made of, and the words the language gives meaning to.
//!
//! `[program.files]` says which files a program is; when it says nothing, the program is
//! the one file it was given. The files are laid end to end, a newline between each two,
//! and every item is attributed to a file by where it sits in the whole.

use vstd::prelude::*;
use vstd::utf8::*;
use crate::source::SourceFile;
use crate::text::{bytes_of, decimal, push_char, push_decimal};
use crate::ty::Part;

verus! {

broadcast use vstd::utf8::group_utf8_lib, vstd::string::group_string_axioms;

/// The last component of a written path, as `std::path::Path::file_name` reads it.
pub uninterp spec fn final_component(path: Seq<char>) -> Option<Seq<char>>;

/// `std::path::Path::file_name` on the path written as `path`: the final component, or
/// nothing when there is none (a path that is a root, or ends in `..`). Which component
/// that is, after `.` and repeated separators, is the standard library's to say, and it
/// follows the path rules of the target the program is built for (`\` separates
/// components on Windows only, and a drive prefix is a component there); the contract
/// claims only that, on one build, the answer depends on the written path alone.
#[verifier::external_body]
fn file_name(path: &str) -> (name: Option<String>)
    ensures
        match (name, final_component(path@)) {
            (Some(a), Some(b)) => a@ == b,
            (None, None) => true,
            _ => false,
        },
{
    match std::path::Path::new(path).file_name() {
        Some(n) => Some(n.to_string_lossy().into_owned()),
        None => None,
    }
}

/// Whether two written paths name the same file, as far as a person meant them to: they
/// are the same, or they end in the same file name.
pub open spec fn same_file_view(one: Seq<char>, other: Seq<char>) -> bool {
    one == other || final_component(one) == final_component(other)
}

/// Whether two written paths name the same file, as far as a person meant them to.
pub fn same_file(one: &str, other: &str) -> (b: bool)
    ensures
        b == same_file_view(one@, other@),
{
    if crate::text::same_str(one, other) {
        return true;
    }
    let a = file_name(one);
    let b = file_name(other);
    match (a, b) {
        (Some(x), Some(y)) => x == y,
        (None, None) => true,
        _ => false,
    }
}

/// Words with `sep` between each two.
pub open spec fn joined(words: Seq<Seq<char>>, sep: Seq<char>) -> Seq<char>
    decreases words.len(),
{
    if words.len() == 0 {
        Seq::empty()
    } else if words.len() == 1 {
        words[0]
    } else {
        joined(words.drop_last(), sep) + sep + words.last()
    }
}

/// Whether `[program.files]` lists the file `path` names.
pub open spec fn listed_somewhere(path: Seq<char>, listed: Seq<(String, String)>) -> bool {
    exists|i: int| 0 <= i < listed.len() && same_file_view(#[trigger] listed[i].1@, path)
}

/// What is said when the file given is not one the project lists.
pub open spec fn not_listed_message(path: Seq<char>, listed: Seq<(String, String)>) -> Seq<char> {
    "`"@ + path + "` is not one of the files `[program.files]` lists.\nit lists "@ + joined(
        listed.map_values(|f: (String, String)| f.1@),
        ", "@,
    ) + "."@
}

/// The files of a program, each with the module its declarations go into.
///
/// When `[program.files]` lists nothing, the program is the one file given, and its
/// module is `main`. When it lists files, the one given must be among them, and the
/// program is every one it lists, in its order.
pub fn files_of(path: &str, listed: &[(String, String)]) -> (r: Result<Vec<(String, String)>, String>)
    ensures
        listed@.len() == 0 ==> (r matches Ok(files) && files@.len() == 1 && files@[0].0@
            == "main"@ && files@[0].1@ == path@),
        listed@.len() > 0 && listed_somewhere(path@, listed@) ==> (r matches Ok(files) && files@
            == listed@),
        listed@.len() > 0 && !listed_somewhere(path@, listed@) ==> (r matches Err(message)
            && message@ == not_listed_message(path@, listed@)),
{
    if listed.len() == 0 {
        let mut files: Vec<(String, String)> = Vec::new();
        files.push((String::from_str("main"), String::from_str(path)));
        return Ok(files);
    }
    let mut i: usize = 0;
    let mut found = false;
    while i < listed.len()
        invariant
            i <= listed@.len(),
            found == exists|j: int| 0 <= j < i && same_file_view(#[trigger] listed@[j].1@, path@),
        decreases listed.len() - i,
    {
        if same_file(listed[i].1.as_str(), path) {
            found = true;
        }
        i = i + 1;
    }
    if !found {
        let ghost all = listed@.map_values(|f: (String, String)| f.1@);
        let mut message = String::from_str("`");
        message.append(path);
        message.append("` is not one of the files `[program.files]` lists.\nit lists ");
        let mut k: usize = 0;
        assert(all.take(0) =~= Seq::<Seq<char>>::empty());
        while k < listed.len()
            invariant
                k <= listed@.len(),
                all == listed@.map_values(|f: (String, String)| f.1@),
                message@ == "`"@ + path@ + "` is not one of the files `[program.files]` lists.\nit lists "@
                    + joined(all.take(k as int), ", "@),
            decreases listed.len() - k,
        {
            assert(all.take(k + 1).drop_last() =~= all.take(k as int));
            if k > 0 {
                message.append(", ");
            } else {
                assert(all.take(1) =~= seq![all[0]]);
            }
            message.append(listed[k].1.as_str());
            k = k + 1;
        }
        assert(all.take(listed@.len() as int) =~= all);
        message.append(".");
        return Err(message);
    }
    let mut files: Vec<(String, String)> = Vec::new();
    let mut k: usize = 0;
    while k < listed.len()
        invariant
            k <= listed@.len(),
            files@ == listed@.take(k as int),
        decreases listed.len() - k,
    {
        files.push((listed[k].0.clone(), listed[k].1.clone()));
        assert(files@ =~= listed@.take(k + 1));
        k = k + 1;
    }
    assert(files@ =~= listed@);
    Ok(files)
}

/// Every file of one program, laid end to end.
pub struct Program {
    /// The whole text, with the files in order and a newline after each.
    pub whole: String,
    /// Each file: where it begins in `whole`, the file itself, and its module name.
    pub files: Vec<(usize, SourceFile, String)>,
    pub parts: Vec<Part>,
}

/// The whole text of files laid end to end, a newline after each.
pub open spec fn end_to_end(texts: Seq<Seq<char>>) -> Seq<char>
    decreases texts.len(),
{
    if texts.len() == 0 {
        Seq::empty()
    } else {
        end_to_end(texts.drop_last()) + texts.last() + seq!['\n']
    }
}

/// Where, in bytes, the file at `i` begins in the whole.
pub open spec fn start_of(texts: Seq<Seq<char>>, i: int) -> int {
    encode_utf8(end_to_end(texts.take(i))).len() as int
}

/// Lay the files of a program end to end: `named` says each file's module and path, and
/// `texts` holds what each file says, in the same order.
pub fn laid_end_to_end(named: &[(String, String)], texts: &[String]) -> (p: Program)
    requires
        named@.len() == texts@.len(),
    ensures
        p.whole@ == end_to_end(texts@.map_values(|t: String| t@)),
        p.files@.len() == named@.len(),
        p.parts@.len() == named@.len(),
        forall|i: int|
            0 <= i < named@.len() ==> {
                let at = start_of(texts@.map_values(|t: String| t@), i);
                &&& #[trigger] p.parts@[i].at == at
                &&& p.parts@[i].name@ == named@[i].0@
                &&& p.files@[i].0 == at
                &&& p.files@[i].1.path_view() == named@[i].1@
                &&& p.files@[i].1.bytes() == encode_utf8(texts@[i]@)
                &&& p.files@[i].1.kept()
                &&& p.files@[i].2@ == named@[i].0@
            },
{
    let ghost all = texts@.map_values(|t: String| t@);
    let mut whole = String::new();
    let mut at: usize = 0;
    assert(encode_utf8(Seq::<char>::empty()) =~= Seq::<u8>::empty());
    let mut files: Vec<(usize, SourceFile, String)> = Vec::new();
    let mut parts: Vec<Part> = Vec::new();
    let mut i: usize = 0;
    assert(all.take(0) =~= Seq::<Seq<char>>::empty());
    while i < named.len()
        invariant
            i <= named@.len(),
            named@.len() == texts@.len(),
            all == texts@.map_values(|t: String| t@),
            whole@ == end_to_end(all.take(i as int)),
            at == encode_utf8(whole@).len(),
            files@.len() == i,
            parts@.len() == i,
            forall|j: int|
                0 <= j < i ==> {
                    let start = start_of(all, j);
                    &&& #[trigger] parts@[j].at == start
                    &&& parts@[j].name@ == named@[j].0@
                    &&& files@[j].0 == start
                    &&& files@[j].1.path_view() == named@[j].1@
                    &&& files@[j].1.bytes() == encode_utf8(texts@[j]@)
                    &&& files@[j].1.kept()
                    &&& files@[j].2@ == named@[j].0@
                },
        decreases named.len() - i,
    {
        let text = texts[i].as_str();
        let name = &named[i].0;
        proof {
            assert(all.take(i + 1).drop_last() =~= all.take(i as int));
            assert(all.take(i + 1).last() == text@);
        }
        files.push((at, SourceFile::new(named[i].1.as_str(), text), name.clone()));
        parts.push(Part { at, name: name.clone() });
        whole.append(text);
        push_char(&mut whole, '\n');
        assert(whole@ =~= end_to_end(all.take(i + 1)));
        at = whole.as_str().as_bytes().len();
        i = i + 1;
    }
    assert(all.take(named@.len() as int) =~= all);
    Program { whole, files, parts }
}

/// How many parts begin at or before `offset`.
pub open spec fn parts_begun(parts: Seq<Part>, offset: int) -> int
    decreases parts.len(),
{
    if parts.len() == 0 {
        0
    } else {
        parts_begun(parts.drop_last(), offset) + if parts.last().at <= offset {
            1int
        } else {
            0int
        }
    }
}

/// Which of the files laid end to end the byte at `offset` is in: the last that begins at
/// or before it, and the first when none does.
pub fn part_of(parts: &[Part], offset: usize) -> (which: usize)
    requires
        parts@.len() > 0,
        forall|a: int, b: int| 0 <= a < b < parts@.len() ==> parts@[a].at < parts@[b].at,
    ensures
        which < parts@.len(),
        parts@[0].at <= offset ==> {
            &&& parts@[which as int].at <= offset
            &&& (which + 1 < parts@.len() ==> offset < parts@[which + 1].at)
        },
        offset < parts@[0].at ==> which == 0,
{
    // The first part that begins after `offset`, by halving.
    let mut lo: usize = 0;
    let mut hi: usize = parts.len();
    while lo < hi
        invariant
            0 <= lo <= hi <= parts@.len(),
            forall|j: int| 0 <= j < lo ==> parts@[j].at <= offset,
            forall|j: int| hi <= j < parts@.len() ==> offset < parts@[j].at,
            forall|a: int, b: int| 0 <= a < b < parts@.len() ==> parts@[a].at < parts@[b].at,
        decreases hi - lo,
    {
        let mid = lo + (hi - lo) / 2;
        if parts[mid].at <= offset {
            lo = mid + 1;
        } else {
            hi = mid;
        }
    }
    if lo == 0 {
        0
    } else {
        lo - 1
    }
}

/// One line per word: the group's name, a tab, the word.
pub open spec fn group_lines(name: Seq<char>, words: Seq<&'static str>) -> Seq<char>
    decreases words.len(),
{
    if words.len() == 0 {
        Seq::empty()
    } else {
        group_lines(name, words.drop_last()) + name + seq!['\t'] + words.last()@ + seq!['\n']
    }
}

/// Every group's lines, one group after another.
pub open spec fn listing_of(groups: Seq<(&'static str, Vec<&'static str>)>) -> Seq<char>
    decreases groups.len(),
{
    if groups.len() == 0 {
        Seq::empty()
    } else {
        listing_of(groups.drop_last()) + group_lines(groups.last().0@, groups.last().1@)
    }
}

/// Every word the language gives meaning to, and where each may stand: one line per
/// word, the group, a tab, then the word. Readable by a person and parsable by anything.
pub fn listing(groups: &[(&'static str, Vec<&'static str>)]) -> (out: String)
    ensures
        out@ == listing_of(groups@),
{
    let mut out = String::new();
    let mut g: usize = 0;
    assert(groups@.take(0) =~= Seq::<(&'static str, Vec<&'static str>)>::empty());
    while g < groups.len()
        invariant
            g <= groups@.len(),
            out@ == listing_of(groups@.take(g as int)),
        decreases groups.len() - g,
    {
        assert(groups@.take(g + 1).drop_last() =~= groups@.take(g as int));
        let (name, words) = (groups[g].0, &groups[g].1);
        let ghost before = out@;
        let mut w: usize = 0;
        assert(words@.take(0) =~= Seq::<&'static str>::empty());
        while w < words.len()
            invariant
                w <= words@.len(),
                out@ == before + group_lines(name@, words@.take(w as int)),
            decreases words.len() - w,
        {
            assert(words@.take(w + 1).drop_last() =~= words@.take(w as int));
            out.append(name);
            push_char(&mut out, '\t');
            out.append(words[w]);
            push_char(&mut out, '\n');
            assert(out@ =~= before + group_lines(name@, words@.take(w + 1)));
            w = w + 1;
        }
        assert(words@.take(words@.len() as int) =~= words@);
        g = g + 1;
    }
    assert(groups@.take(groups@.len() as int) =~= groups@);
    out
}

/// The lines of a text: split after each line feed, without it, and without a carriage
/// return just before it. A last line with no line feed after it still counts; nothing
/// after a final line feed does.
pub open spec fn lines_of(s: Seq<char>) -> Seq<Seq<char>>
    decreases s.len(),
{
    if s.len() == 0 {
        Seq::empty()
    } else {
        let n = position_of(s, '\n', 0);
        proof {
            lemma_position_of_bounds(s, '\n', 0);
        }
        if n < s.len() {
            let line = s.take(n);
            let line = if line.len() > 0 && line.last() == '\r' {
                line.drop_last()
            } else {
                line
            };
            seq![line] + lines_of(s.skip(n + 1))
        } else {
            seq![s]
        }
    }
}

/// Where the first `c` at or after `from` is, or the length when there is none.
pub open spec fn position_of(s: Seq<char>, c: char, from: int) -> int
    decreases s.len() - from,
{
    if from >= s.len() {
        s.len() as int
    } else if s[from] == c {
        from
    } else {
        position_of(s, c, from + 1)
    }
}

/// The first `c` at or after `from` is where it says, and there is none before it.
pub proof fn lemma_position_of_bounds(s: Seq<char>, c: char, from: int)
    requires
        0 <= from <= s.len(),
    ensures
        from <= position_of(s, c, from) <= s.len(),
        position_of(s, c, from) < s.len() ==> s[position_of(s, c, from)] == c,
        forall|j: int| from <= j < position_of(s, c, from) ==> s[j] != c,
    decreases s.len() - from,
{
    if from < s.len() && s[from] != c {
        lemma_position_of_bounds(s, c, from + 1);
    }
}

/// Looking from `from` in a text is looking from the start of what follows `from`.
proof fn lemma_position_of_skip(s: Seq<char>, c: char, a: int, from: int)
    requires
        0 <= a <= from <= s.len(),
    ensures
        position_of(s.skip(a), c, from - a) == position_of(s, c, from) - a,
    decreases s.len() - from,
{
    if from < s.len() && s[from] != c {
        lemma_position_of_skip(s, c, a, from + 1);
    }
}

/// Each item once, in the order it first appears.
pub open spec fn distinct(s: Seq<Seq<char>>) -> Seq<Seq<char>>
    decreases s.len(),
{
    if s.len() == 0 {
        Seq::empty()
    } else {
        let rest = distinct(s.drop_last());
        if rest.contains(s.last()) {
            rest
        } else {
            rest.push(s.last())
        }
    }
}

/// What is before the first tab of each line that has one.
pub open spec fn groups_of(lines: Seq<Seq<char>>) -> Seq<Seq<char>>
    decreases lines.len(),
{
    if lines.len() == 0 {
        Seq::empty()
    } else {
        let line = lines.last();
        let t = position_of(line, '\t', 0);
        if t < line.len() {
            groups_of(lines.drop_last()).push(line.take(t))
        } else {
            groups_of(lines.drop_last())
        }
    }
}

/// What is after the first tab of each line that has one.
pub open spec fn words_of(lines: Seq<Seq<char>>) -> Seq<Seq<char>>
    decreases lines.len(),
{
    if lines.len() == 0 {
        Seq::empty()
    } else {
        let line = lines.last();
        let t = position_of(line, '\t', 0);
        if t < line.len() {
            words_of(lines.drop_last()).push(line.skip(t + 1))
        } else {
            words_of(lines.drop_last())
        }
    }
}

/// The three numbers a listing comes to: how many different words, how many lines, and
/// how many different groups.
pub open spec fn counted_text(listed: Seq<char>) -> Seq<char> {
    let lines = lines_of(listed);
    "words\t"@ + decimal(distinct(words_of(lines)).len()) + "\nplaces\t"@ + decimal(lines.len())
        + "\ngroups\t"@ + decimal(distinct(groups_of(lines)).len()) + "\n"@
}

fn same_chars(a: &Vec<char>, b: &Vec<char>) -> (r: bool)
    ensures
        r == (a@ == b@),
{
    if a.len() != b.len() {
        return false;
    }
    let mut i: usize = 0;
    while i < a.len()
        invariant
            i <= a@.len(),
            a@.len() == b@.len(),
            forall|j: int| 0 <= j < i ==> a@[j] == b@[j],
        decreases a.len() - i,
    {
        if a[i] != b[i] {
            return false;
        }
        i = i + 1;
    }
    assert(a@ =~= b@);
    true
}

fn chars_between(v: &Vec<char>, from: usize, to: usize) -> (r: Vec<char>)
    requires
        from <= to <= v@.len(),
    ensures
        r@ == v@.subrange(from as int, to as int),
{
    let mut r: Vec<char> = Vec::new();
    let mut i: usize = from;
    while i < to
        invariant
            from <= i <= to <= v@.len(),
            r@ == v@.subrange(from as int, i as int),
        decreases to - i,
    {
        r.push(v[i]);
        assert(r@ =~= v@.subrange(from as int, i + 1));
        i = i + 1;
    }
    r
}

/// Add `item` to `seen` unless it is there already.
fn remember(seen: &mut Vec<Vec<char>>, item: Vec<char>)
    ensures
        final(seen)@.map_values(|v: Vec<char>| v@) == if old(seen)@.map_values(|v: Vec<char>| v@).contains(item@) {
            old(seen)@.map_values(|v: Vec<char>| v@)
        } else {
            old(seen)@.map_values(|v: Vec<char>| v@).push(item@)
        },
{
    let ghost views = seen@.map_values(|v: Vec<char>| v@);
    let mut i: usize = 0;
    while i < seen.len()
        invariant
            i <= seen@.len(),
            views == seen@.map_values(|v: Vec<char>| v@),
            *seen == *old(seen),
            forall|j: int| 0 <= j < i ==> views[j] != item@,
        decreases seen.len() - i,
    {
        if same_chars(&seen[i], &item) {
            assert(views[i as int] == item@);
            return;
        }
        i = i + 1;
    }
    let ghost item_view = item@;
    seen.push(item);
    assert(seen@.map_values(|v: Vec<char>| v@) =~= views.push(item_view));
}

/// The line in `v` from `start` to the line feed at `end`, without a carriage return just
/// before it.
fn line_at(v: &Vec<char>, start: usize, end: usize, ended: bool) -> (line: Vec<char>)
    requires
        start <= end <= v@.len(),
    ensures
        line@ == ({
            let l = v@.subrange(start as int, end as int);
            if ended && l.len() > 0 && l.last() == '\r' {
                l.drop_last()
            } else {
                l
            }
        }),
{
    if ended && end > start && v[end - 1] == '\r' {
        let r = chars_between(v, start, end - 1);
        assert(r@ =~= v@.subrange(start as int, end as int).drop_last());
        r
    } else {
        chars_between(v, start, end)
    }
}

/// How many words a listing of them holds, how many places, and how many groups.
///
/// A listing has one line per word per group, so counting its lines counts places, and a
/// word that stands in two groups is one word. This counts the words once each.
pub fn counted_words(listed: &str) -> (out: String)
    ensures
        out@ == counted_text(listed@),
{
    let v = crate::text::chars_of(listed);
    let ghost s = v@;
    let ghost mut done: Seq<Seq<char>> = Seq::empty();
    let mut places: usize = 0;
    let mut words: Vec<Vec<char>> = Vec::new();
    let mut groups: Vec<Vec<char>> = Vec::new();
    let mut start: usize = 0;
    assert(s.skip(0) =~= s);
    while start < v.len()
        invariant
            s == v@,
            s == listed@,
            start <= s.len(),
            done + lines_of(s.skip(start as int)) == lines_of(s),
            places == done.len(),
            places <= start,
            words@.map_values(|w: Vec<char>| w@) == distinct(words_of(done)),
            groups@.map_values(|g: Vec<char>| g@) == distinct(groups_of(done)),
        decreases s.len() - start,
    {
        let mut end: usize = start;
        while end < v.len() && v[end] != '\n'
            invariant
                start <= end <= v@.len(),
                forall|j: int| start <= j < end ==> v@[j] != '\n',
            decreases v.len() - end,
        {
            end = end + 1;
        }
        let ended = end < v.len();
        let line = line_at(&v, start, end, ended);
        proof {
            let rest = s.skip(start as int);
            lemma_position_of_bounds(s, '\n', start as int);
            lemma_position_of_skip(s, '\n', start as int, start as int);
            assert(position_of(s, '\n', start as int) == end) by {
                if position_of(s, '\n', start as int) < end {
                    assert(s[position_of(s, '\n', start as int)] == '\n');
                }
            }
            assert(rest.skip(0) =~= rest);
            assert(rest.take(end - start) =~= s.subrange(start as int, end as int));
            if ended {
                assert(rest.skip(end - start + 1) =~= s.skip(end + 1));
            } else {
                assert(rest =~= s.subrange(start as int, end as int));
            }
            assert(lines_of(rest) == seq![line@] + if ended {
                lines_of(s.skip(end + 1))
            } else {
                Seq::<Seq<char>>::empty()
            });
        }
        // The group is what is before the first tab and the word what is after it.
        let mut t: usize = 0;
        while t < line.len() && line[t] != '\t'
            invariant
                t <= line@.len(),
                forall|j: int| 0 <= j < t ==> line@[j] != '\t',
            decreases line.len() - t,
        {
            t = t + 1;
        }
        proof {
            lemma_position_of_bounds(line@, '\t', 0);
            assert(position_of(line@, '\t', 0) == t) by {
                if position_of(line@, '\t', 0) < t {
                    assert(line@[position_of(line@, '\t', 0)] == '\t');
                }
            }
        }
        let ghost next = done.push(line@);
        assert(next.drop_last() =~= done);
        if t < line.len() {
            let group = chars_between(&line, 0, t);
            let word = chars_between(&line, t + 1, line.len());
            assert(group@ =~= line@.take(t as int));
            assert(word@ =~= line@.skip(t + 1));
            assert(words_of(next) == words_of(done).push(word@));
            assert(groups_of(next) == groups_of(done).push(group@));
            assert(words_of(done).push(word@).drop_last() =~= words_of(done));
            assert(groups_of(done).push(group@).drop_last() =~= groups_of(done));
            assert(distinct(words_of(next)) == if distinct(words_of(done)).contains(word@) {
                distinct(words_of(done))
            } else {
                distinct(words_of(done)).push(word@)
            });
            assert(distinct(groups_of(next)) == if distinct(groups_of(done)).contains(group@) {
                distinct(groups_of(done))
            } else {
                distinct(groups_of(done)).push(group@)
            });
            remember(&mut groups, group);
            remember(&mut words, word);
        } else {
            assert(words_of(next) == words_of(done));
            assert(groups_of(next) == groups_of(done));
        }
        proof {
            done = next;
        }
        places = places + 1;
        if ended {
            start = end + 1;
        } else {
            start = end;
            assert(s.skip(start as int) =~= Seq::<char>::empty());
            assert(done + lines_of(s.skip(start as int)) =~= done);
        }
    }
    proof {
        assert(s.skip(start as int) =~= Seq::<char>::empty());
        assert(done =~= done + lines_of(s.skip(start as int)));
    }
    let mut out = String::from_str("words\t");
    push_decimal(&mut out, words.len() as u64);
    out.append("\nplaces\t");
    push_decimal(&mut out, places as u64);
    out.append("\ngroups\t");
    push_decimal(&mut out, groups.len() as u64);
    out.append("\n");
    out
}

} // verus!
