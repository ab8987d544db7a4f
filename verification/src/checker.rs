//! What the checker knows while it works, and the decisions it makes from that alone.
//!
//! Which names are in scope, which modules and files may be named from where, and what
//! a word written where a type goes turns out to be. None of it needs the syntax tree:
//! it needs the source text, a few spans into it, and the tables the checker keeps as it
//! reads. Every table is a list of `(key, value)` pairs in which the first pair with a
//! key is the one that counts.

use vstd::prelude::*;
use crate::checked::{Constant, Stmt, Value};
use crate::diag::{label_views, texts, Diagnostic, DiagnosticView, LabelStyle};
use crate::holes::{filled, filled_view};
use crate::names::{one_edit_apart, unescaped, unmarked, within_one_edit};
use crate::source::Span;
use crate::program::joined;
use crate::text::{bytes_of, chars_of, decimal, push_char, push_decimal, same_str, sub_str};
use crate::ty::{
    article_of, hole_named, hole_word, is_comparison, name_of, op_word, reaches_view, simple_view, tier_of,
    visibility_named, visibility_word, Hole, Length, Local, LocalId, OpKind, Size, Ty, TyView, Visibility,
    view_of, MODULES,
};
use vstd::utf8::*;

verus! {

/// One module, as far as reaching into it is concerned.
#[derive(Clone, Debug)]
pub struct Known {
    pub visibility: Visibility,
    /// The file it was declared in.
    pub in_file: String,
    /// The module it was declared in, outermost first.
    pub in_module: Vec<String>,
    /// The name, for pointing at.
    pub at: Span,
}

/// What a function's declaration says, read before any body is checked.
pub struct Signature {
    /// The name as it was written, which is what a message about it should say.
    pub said: String,
    /// The file it was declared in.
    pub in_file: String,
    /// The module it was declared in, outermost first.
    pub in_module: Vec<String>,
    pub visibility: Option<Visibility>,
    pub returns: Option<Ty>,
    /// The hole this function opened, if it opened one.
    pub hole: Option<Hole>,
    /// One per parameter, in order.
    pub takes: Vec<Ty>,
    /// The name, for pointing at.
    pub at: Span,
    /// The parameter list, for pointing at when a call brings the wrong number.
    pub list: Span,
}

/// The checker's state: the source it reads, what is in scope, and everything declared.
pub struct Checker<'a> {
    pub source: &'a str,
    pub locals: Vec<Local>,
    /// Name to variable, one table per block, innermost last.
    pub scope: Vec<Vec<(String, LocalId)>>,
    /// How many loops enclose what is being checked.
    pub depth: u32,
    pub signatures: Vec<Signature>,
    /// Function key to its place among the signatures.
    pub named: Vec<(String, u32)>,
    pub constants: Vec<Constant>,
    /// Constant key to its place in `constants`.
    pub known: Vec<(String, u32)>,
    /// Which file is being read, by the module name it gives its declarations.
    pub at_file: String,
    /// Which files each file may name, from `import`. A file always names itself.
    pub imports: Vec<(String, Vec<String>)>,
    /// Which of the language's own modules each file said it uses.
    pub libraries: Vec<(String, Vec<String>)>,
    /// Which module is being read, outermost first, empty at the top of a file.
    pub at_module: Vec<String>,
    /// Every module, by its full key.
    pub modules: Vec<(String, Known)>,
    /// The hole the function being read opened, if it opened one.
    pub hole: Option<Hole>,
    /// True only while a signature is being read.
    pub opening: bool,
    /// True while what is being read stands at the top of a file, where a declaration is
    /// a constant.
    pub at_top: bool,
    pub body: Vec<Stmt>,
    pub errors: Vec<Diagnostic>,
}

/// The value the first pair with this key holds, if any pair has it.
pub open spec fn entry_of<V>(pairs: Seq<(String, V)>, key: Seq<char>) -> Option<V>
    decreases pairs.len(),
{
    if pairs.len() == 0 {
        None
    } else if pairs[0].0@ == key {
        Some(pairs[0].1)
    } else {
        entry_of(pairs.drop_first(), key)
    }
}

proof fn lemma_entry_of_skip<V>(pairs: Seq<(String, V)>, key: Seq<char>, i: int)
    requires
        0 <= i < pairs.len(),
    ensures
        entry_of(pairs.skip(i), key) == if pairs[i].0@ == key {
            Some(pairs[i].1)
        } else {
            entry_of(pairs.skip(i + 1), key)
        },
{
    assert(pairs.skip(i).drop_first() =~= pairs.skip(i + 1));
    assert(pairs.skip(i)[0] == pairs[i]);
}

/// The value the first pair with this key holds.
pub fn find<'b, V>(pairs: &'b Vec<(String, V)>, key: &str) -> (r: Option<&'b V>)
    ensures
        match r {
            Some(v) => entry_of(pairs@, key@) == Some(*v),
            None => entry_of(pairs@, key@) is None,
        },
{
    let mut i: usize = 0;
    assert(pairs@.skip(0) =~= pairs@);
    while i < pairs.len()
        invariant
            i <= pairs@.len(),
            entry_of(pairs@, key@) == entry_of(pairs@.skip(i as int), key@),
        decreases pairs.len() - i,
    {
        proof {
            lemma_entry_of_skip(pairs@, key@, i as int);
        }
        if same_str(pairs[i].0.as_str(), key) {
            return Some(&pairs[i].1);
        }
        i = i + 1;
    }
    assert(pairs@.skip(i as int).len() == 0);
    None
}

/// The modules of a path, each with a dot before it.
pub open spec fn dotted(at: Seq<Seq<char>>) -> Seq<char>
    decreases at.len(),
{
    if at.len() == 0 {
        Seq::empty()
    } else {
        dotted(at.drop_last()) + "."@ + at.last()
    }
}

/// A name as it is keyed: the file, the modules inside it, then the name.
pub open spec fn qualified_view(file: Seq<char>, at: Seq<Seq<char>>, name: Seq<char>) -> Seq<char> {
    file + dotted(at) + "."@ + name
}

/// The part of a path before its first dot: the file, when the path starts with one.
pub open spec fn first_link(path: Seq<char>) -> Seq<char>
    decreases path.len(),
{
    if path.len() == 0 || path[0] == '.' {
        Seq::empty()
    } else {
        seq![path[0]] + first_link(path.drop_first())
    }
}

/// What a key finds, walking outward from `depth` modules deep to the top of the file.
pub open spec fn found_outward(
    pairs: Seq<(String, u32)>,
    file: Seq<char>,
    at: Seq<Seq<char>>,
    name: Seq<char>,
    depth: int,
) -> Option<u32>
    decreases depth + 1,
{
    if depth < 0 {
        None
    } else {
        match entry_of(pairs, qualified_view(file, at.take(depth), name)) {
            Some(w) => Some(w),
            None => found_outward(pairs, file, at, name, depth - 1),
        }
    }
}

/// Which of a file's variables a name means: the innermost table that has it.
pub open spec fn seen_in(scope: Seq<Vec<(String, LocalId)>>, name: Seq<char>) -> Option<LocalId>
    decreases scope.len(),
{
    if scope.len() == 0 {
        None
    } else {
        match entry_of(scope.last()@, name) {
            Some(id) => Some(id),
            None => seen_in(scope.drop_last(), name),
        }
    }
}

/// The bytes a span covers.
pub open spec fn piece(source: &str, span: Span) -> Seq<u8> {
    bytes_of(source).subrange(span.start as int, span.end as int)
}

/// Whether a span lies within the source and cuts it between characters.
pub open spec fn cuts(source: &str, span: Span) -> bool {
    &&& span.start <= span.end <= bytes_of(source).len()
    &&& is_char_boundary(bytes_of(source), span.start as int)
    &&& is_char_boundary(bytes_of(source), span.end as int)
}

/// Whether a span is a name between marks that can be read: it cuts the source, and its
/// marks are one byte each.
pub open spec fn reads_as_name(source: &str, span: Span) -> bool {
    &&& cuts(source, span)
    &&& piece(source, span).len() >= 2 ==> {
        &&& is_char_boundary(piece(source, span), 1)
        &&& is_char_boundary(piece(source, span), piece(source, span).len() - 1)
    }
}

/// The text a span covers.
pub open spec fn text_at(source: &str, span: Span) -> Seq<char> {
    decode_utf8(piece(source, span))
}

/// The name a span holds, its marks taken off and their escape undone.
pub open spec fn name_at(source: &str, span: Span) -> Seq<char> {
    let p = piece(source, span);
    if p.len() < 2 {
        Seq::empty()
    } else {
        unescaped(decode_utf8(p.subrange(1, p.len() - 1)))
    }
}

/// `a`, then `x`, then `b`.
pub fn around(a: &str, x: &str, b: &str) -> (m: String)
    ensures
        m@ == a@ + x@ + b@,
{
    let mut m = String::from_str(a);
    m.append(x);
    m.append(b);
    m
}

/// A name as it is keyed: the file, the first `upto` modules of `at`, then the name.
pub fn qualified(file: &str, at: &[String], upto: usize, name: &str) -> (key: String)
    requires
        upto <= at@.len(),
    ensures
        key@ == qualified_view(file@, texts(at@).take(upto as int), name@),
{
    let mut key = String::from_str(file);
    let mut i: usize = 0;
    assert(texts(at@).take(0) =~= Seq::<Seq<char>>::empty());
    while i < upto
        invariant
            i <= upto <= at@.len(),
            key@ == file@ + dotted(texts(at@).take(i as int)),
        decreases upto - i,
    {
        key.append(".");
        key.append(at[i].as_str());
        proof {
            let t = texts(at@).take(i + 1);
            assert(t.drop_last() =~= texts(at@).take(i as int));
            assert(t.last() == at@[i as int]@);
        }
        i = i + 1;
    }
    key.append(".");
    key.append(name);
    key
}


/// A string with every dot at its end taken off.
pub open spec fn trimmed(s: Seq<char>) -> Seq<char>
    decreases s.len(),
{
    if s.len() > 0 && s.last() == '.' {
        trimmed(s.drop_last())
    } else {
        s
    }
}

fn without_trailing_dots(s: &str) -> (r: String)
    ensures
        r@ == trimmed(s@),
{
    let chars = chars_of(s);
    let mut end: usize = chars.len();
    assert(chars@.take(end as int) =~= s@);
    while end > 0 && chars[end - 1] == '.'
        invariant
            end <= chars@.len(),
            chars@ == s@,
            trimmed(s@) == trimmed(chars@.take(end as int)),
        decreases end,
    {
        assert(chars@.take(end as int).drop_last() =~= chars@.take(end - 1));
        end = end - 1;
    }
    let mut r = String::new();
    let mut i: usize = 0;
    assert(r@ =~= chars@.take(0));
    while i < end
        invariant
            i <= end <= chars@.len(),
            r@ == chars@.take(i as int),
        decreases end - i,
    {
        push_char(&mut r, chars[i]);
        assert(chars@.take(i + 1) =~= chars@.take(i as int).push(chars@[i as int]));
        i = i + 1;
    }
    r
}

/// The first `upto` names, with a dot between each two.
pub(crate) fn dot_joined(at: &[String], upto: usize) -> (s: String)
    requires
        upto <= at@.len(),
    ensures
        s@ == joined(texts(at@).take(upto as int), "."@),
{
    let mut s = String::new();
    let mut i: usize = 0;
    assert(texts(at@).take(0) =~= Seq::<Seq<char>>::empty());
    while i < upto
        invariant
            i <= upto <= at@.len(),
            s@ == joined(texts(at@).take(i as int), "."@),
        decreases upto - i,
    {
        let ghost t = texts(at@).take(i + 1);
        assert(t.drop_last() =~= texts(at@).take(i as int));
        assert(t.last() == at@[i as int]@);
        if i > 0 {
            s.append(".");
        } else {
            assert(s@ =~= Seq::<char>::empty());
        }
        s.append(at[i].as_str());
        i = i + 1;
    }
    s
}

/// Where the first pair with a key is, if any pair has it.
pub fn find_index<V>(pairs: &Vec<(String, V)>, key: &str) -> (r: Option<usize>)
    ensures
        match r {
            Some(i) => i < pairs@.len() && pairs@[i as int].0@ == key@ && (forall|j: int|
                0 <= j < i ==> (#[trigger] pairs@[j]).0@ != key@),
            None => forall|j: int| 0 <= j < pairs@.len() ==> (#[trigger] pairs@[j]).0@ != key@,
        },
{
    let mut i: usize = 0;
    while i < pairs.len()
        invariant
            i <= pairs@.len(),
            forall|j: int| 0 <= j < i ==> (#[trigger] pairs@[j]).0@ != key@,
        decreases pairs.len() - i,
    {
        if same_str(pairs[i].0.as_str(), key) {
            return Some(i);
        }
        i = i + 1;
    }
    None
}

/// The first pair with a key is the one `entry_of` answers with, and a key no pair has
/// finds nothing.
pub(crate) proof fn lemma_entry_at<V>(pairs: Seq<(String, V)>, key: Seq<char>, i: int)
    requires
        0 <= i <= pairs.len(),
        forall|j: int| 0 <= j < i ==> (#[trigger] pairs[j]).0@ != key,
        i < pairs.len() ==> pairs[i].0@ == key,
    ensures
        entry_of(pairs, key) == if i < pairs.len() {
            Some(pairs[i].1)
        } else {
            None
        },
    decreases i,
{
    if i > 0 {
        assert(pairs[0].0@ != key);
        let rest = pairs.drop_first();
        assert forall|j: int| 0 <= j < i - 1 implies (#[trigger] rest[j]).0@ != key by {
            assert(rest[j] == pairs[j + 1]);
        }
        if i < pairs.len() {
            assert(rest[i - 1] == pairs[i]);
        }
        lemma_entry_at(rest, key, i - 1);
    } else if pairs.len() > 0 {
    }
}

/// Putting a pair with the same key where the first one with it was changes what that
/// key finds, and nothing else.
pub(crate) proof fn lemma_entry_update<V>(pairs: Seq<(String, V)>, i: int, p: (String, V), other: Seq<char>)
    requires
        0 <= i < pairs.len(),
        p.0@ == pairs[i].0@,
        forall|j: int| 0 <= j < i ==> (#[trigger] pairs[j]).0@ != pairs[i].0@,
    ensures
        entry_of(pairs.update(i, p), pairs[i].0@) == Some(p.1),
        other != pairs[i].0@ ==> entry_of(pairs.update(i, p), other) == entry_of(pairs, other),
    decreases i,
{
    let after = pairs.update(i, p);
    if i == 0 {
        assert(after.drop_first() =~= pairs.drop_first());
    } else {
        assert(after[0] == pairs[0]);
        let rest = pairs.drop_first();
        assert(after.drop_first() =~= rest.update(i - 1, p));
        assert(rest[i - 1] == pairs[i]);
        assert forall|j: int| 0 <= j < i - 1 implies (#[trigger] rest[j]).0@ != rest[i - 1].0@ by {
            assert(rest[j] == pairs[j + 1]);
        }
        lemma_entry_update(rest, i - 1, p, other);
    }
}

/// A key no pair has yet, added at the end, finds what was added; every other key finds
/// what it found before.
pub(crate) proof fn lemma_entry_push<V>(pairs: Seq<(String, V)>, p: (String, V), other: Seq<char>)
    requires
        entry_of(pairs, p.0@) is None,
    ensures
        entry_of(pairs.push(p), p.0@) == Some(p.1),
        other != p.0@ ==> entry_of(pairs.push(p), other) == entry_of(pairs, other),
    decreases pairs.len(),
{
    if pairs.len() > 0 {
        assert(pairs.push(p).drop_first() =~= pairs.drop_first().push(p));
        assert(pairs.push(p)[0] == pairs[0]);
        lemma_entry_push(pairs.drop_first(), p, other);
    } else {
        assert(pairs.push(p).drop_first() =~= Seq::<(String, V)>::empty());
        assert(entry_of(Seq::<(String, V)>::empty(), other) is None);
        assert(pairs.push(p)[0] == p);
    }
}


/// Which of the language's modules a file said it uses.
pub open spec fn listed_for(pairs: Seq<(String, Vec<String>)>, key: Seq<char>) -> Seq<Seq<char>> {
    match entry_of(pairs, key) {
        Some(v) => texts(v@),
        None => Seq::empty(),
    }
}

/// Whether a word is one of the language's own modules.
pub open spec fn a_library(word: Seq<char>) -> bool {
    exists|i: int| 0 <= i < MODULES@.len() && (#[trigger] MODULES@[i])@ == word
}

fn is_library(word: &str) -> (b: bool)
    ensures
        b == a_library(word@),
{
    let mut i: usize = 0;
    while i < MODULES.len()
        invariant
            i <= MODULES@.len(),
            forall|j: int| 0 <= j < i ==> (#[trigger] MODULES@[j])@ != word@,
        decreases MODULES.len() - i,
    {
        if same_str(MODULES[i], word) {
            return true;
        }
        i = i + 1;
    }
    false
}

/// Every link of a chain but the first.
pub open spec fn after_first(chain: Seq<Span>) -> Seq<Span> {
    if chain.len() == 0 {
        Seq::empty()
    } else {
        chain.drop_first()
    }
}

/// The visibilities some links say, in order, each with the link that says it.
pub open spec fn visibilities_in(source: &str, links: Seq<Span>) -> Seq<(Visibility, Span)>
    decreases links.len(),
{
    if links.len() == 0 {
        Seq::empty()
    } else {
        let rest = visibilities_in(source, links.drop_last());
        match visibility_named(text_at(source, links.last())) {
            Some(v) => rest.push((v, links.last())),
            None => rest,
        }
    }
}

/// E0458, for a visibility said again at `link` after the first at `first`.
pub open spec fn twice_seen(source: &str, first: Span, link: Span) -> DiagnosticView {
    DiagnosticView {
        code: "E0458"@,
        message: "this says twice who can see it."@,
        rules: seq!["a declaration says one of `module`, `parent`, `file`, `program` or `export`, once"@],
        tips: Seq::empty(),
        fixes: seq!["keep the one that was meant"@],
        labels: seq![
            (first, "`"@ + text_at(source, first) + "` here"@, LabelStyle::Secondary),
            (link, "and `"@ + text_at(source, link) + "` here"@, LabelStyle::Primary),
        ],
    }
}

/// Whether a visibility names a boundary that is not there, this many modules deep:
/// `module` at the top of a file, `parent` less than two deep.
pub open spec fn boundary_missing(v: Visibility, deep: int) -> bool {
    (v == Visibility::Module && deep == 0) || (v == Visibility::Parent && deep < 2)
}

/// What a size says in place of a number, if it says a word.
pub open spec fn size_word(size: Size) -> Seq<char> {
    match size {
        Size::Grows(_) => "grow"@,
        Size::Unknown(_) => "any"@,
        Size::Fixed(_) => Seq::empty(),
    }
}

/// The span from the start of the earlier of two spans to the end of the later.
pub open spec fn span_to(a: Span, b: Span) -> Span {
    Span {
        start: if a.start <= b.start { a.start } else { b.start },
        end: if a.end >= b.end { a.end } else { b.end },
    }
}

/// What E0480 says of a size that is not a number after the first: pointing at it, with
/// the allocation it belongs to.
pub open spec fn misplaced_size(size: Size, arr: Span) -> DiagnosticView {
    let at = match size {
        Size::Grows(a) => a,
        Size::Unknown(a) => a,
        Size::Fixed(_) => arr,
    };
    DiagnosticView {
        code: "E0480"@,
        message: "only the first size of an allocation can say `"@ + size_word(size) + "`."@,
        rules: seq![
            "finding an element is `(i - 1) x stride + j`, and a stride is the sizes under a dimension — so every size but the outermost has to be known"@,
        ],
        tips: seq![
            "`arr.arr.i64 (2 grow)` is two rows that each grow, which is what a growing inner dimension usually means."@,
        ],
        fixes: seq!["`"@ + size_word(size) + "` first, or a number here"@],
        labels: seq![(at, "here"@, LabelStyle::Primary), (arr, "this allocation"@, LabelStyle::Secondary)],
    }
}

/// What the first size says about the length.
pub open spec fn length_said(sizes: Seq<Size>) -> Length {
    if sizes.len() > 0 {
        match sizes[0] {
            Size::Grows(_) => Length::Grows,
            Size::Unknown(_) => Length::Unknown,
            Size::Fixed(_) => Length::Said,
        }
    } else {
        Length::Said
    }
}

/// The sizes that have to be numbers: all of them, or all but a first that said a word.
pub open spec fn sizes_after_length(sizes: Seq<Size>) -> Seq<Size> {
    if length_said(sizes) == Length::Said {
        sizes
    } else {
        sizes.drop_first()
    }
}

/// The number each size says, nought for one that says a word.
pub open spec fn numbers_of(sizes: Seq<Size>) -> Seq<usize> {
    sizes.map_values(
        |s: Size|
            match s {
                Size::Fixed(n) => n,
                _ => 0usize,
            },
    )
}


/// Where the first size from `from` on that says a word is, if one does.
fn first_word(sizes: &[Size], from: usize) -> (r: Option<usize>)
    requires
        from <= sizes@.len(),
    ensures
        match r {
            Some(i) => from <= i < sizes@.len() && !(sizes@[i as int] is Fixed) && forall|c: int|
                from <= c < i ==> (#[trigger] sizes@[c]) is Fixed,
            None => forall|c: int| from <= c < sizes@.len() ==> (#[trigger] sizes@[c]) is Fixed,
        },
{
    let mut i: usize = from;
    while i < sizes.len()
        invariant
            from <= i <= sizes@.len(),
            forall|c: int| from <= c < i ==> (#[trigger] sizes@[c]) is Fixed,
        decreases sizes.len() - i,
    {
        match sizes[i] {
            Size::Fixed(_) => {},
            _ => {
                return Some(i);
            },
        }
        i = i + 1;
    }
    None
}

/// The numbers the sizes from `from` on say, when every one of them says a number.
fn numbers(sizes: &[Size], from: usize) -> (v: Vec<usize>)
    requires
        from <= sizes@.len(),
        forall|c: int| from <= c < sizes@.len() ==> (#[trigger] sizes@[c]) is Fixed,
    ensures
        v@ == numbers_of(sizes@.skip(from as int)),
{
    let ghost rest = sizes@.skip(from as int);
    let mut v: Vec<usize> = Vec::new();
    let mut i: usize = from;
    while i < sizes.len()
        invariant
            from <= i <= sizes@.len(),
            rest == sizes@.skip(from as int),
            v@ == numbers_of(rest.take(i - from)),
            forall|c: int| from <= c < sizes@.len() ==> (#[trigger] sizes@[c]) is Fixed,
        decreases sizes.len() - i,
    {
        assert(rest[i - from] == sizes@[i as int]);
        match sizes[i] {
            Size::Fixed(n) => {
                v.push(n);
                assert(numbers_of(rest.take(i - from + 1)) =~= numbers_of(rest.take(i - from)).push(n));
            },
            _ => {
                assert(false);
            },
        }
        i = i + 1;
    }
    assert(rest.take(i - from) =~= rest);
    v
}


/// Whether a list of names holds this one.
pub(crate) fn holds(list: &Vec<String>, name: &str) -> (b: bool)
    ensures
        b == texts(list@).contains(name@),
{
    let mut j: usize = 0;
    while j < list.len()
        invariant
            j <= list@.len(),
            forall|k: int| 0 <= k < j ==> texts(list@)[k] != name@,
        decreases list.len() - j,
    {
        if same_str(list[j].as_str(), name) {
            assert(texts(list@)[j as int] == name@);
            return true;
        }
        j = j + 1;
    }
    false
}


/// What a key finds among pairs whose values are all under a bound is under it too.
pub(crate) proof fn lemma_entry_below(pairs: Seq<(String, u32)>, key: Seq<char>, bound: int)
    requires
        forall|i: int| 0 <= i < pairs.len() ==> (#[trigger] pairs[i]).1 < bound,
    ensures
        entry_of(pairs, key) matches Some(v) ==> v < bound,
    decreases pairs.len(),
{
    if pairs.len() > 0 {
        let rest = pairs.drop_first();
        assert forall|i: int| 0 <= i < rest.len() implies (#[trigger] rest[i]).1 < bound by {
            assert(rest[i] == pairs[i + 1]);
        }
        assert(pairs[0].1 < bound);
        lemma_entry_below(rest, key, bound);
    }
}

pub(crate) proof fn lemma_outward_below(
    pairs: Seq<(String, u32)>,
    file: Seq<char>,
    at: Seq<Seq<char>>,
    name: Seq<char>,
    depth: int,
    bound: int,
)
    requires
        forall|i: int| 0 <= i < pairs.len() ==> (#[trigger] pairs[i]).1 < bound,
    ensures
        found_outward(pairs, file, at, name, depth) matches Some(v) ==> v < bound,
    decreases depth + 1,
{
    if depth >= 0 {
        lemma_entry_below(pairs, qualified_view(file, at.take(depth), name), bound);
        lemma_outward_below(pairs, file, at, name, depth - 1, bound);
    }
}

proof fn lemma_seen_below(scope: Seq<Vec<(String, LocalId)>>, name: Seq<char>, bound: int)
    requires
        forall|d: int, i: int|
            0 <= d < scope.len() && 0 <= i < scope[d]@.len() ==> (#[trigger] scope[d]@[i]).1.0 < bound,
    ensures
        seen_in(scope, name) matches Some(id) ==> id.0 < bound,
    decreases scope.len(),
{
    if scope.len() > 0 {
        let last = scope.last()@;
        let ids = last.map_values(|p: (String, LocalId)| (p.0, p.1.0));
        lemma_entry_ids(last, name, bound);
        lemma_seen_below(scope.drop_last(), name, bound);
    }
}

proof fn lemma_entry_ids(pairs: Seq<(String, LocalId)>, key: Seq<char>, bound: int)
    requires
        forall|i: int| 0 <= i < pairs.len() ==> (#[trigger] pairs[i]).1.0 < bound,
    ensures
        entry_of(pairs, key) matches Some(id) ==> id.0 < bound,
    decreases pairs.len(),
{
    if pairs.len() > 0 {
        let rest = pairs.drop_first();
        assert forall|i: int| 0 <= i < rest.len() implies (#[trigger] rest[i]).1.0 < bound by {
            assert(rest[i] == pairs[i + 1]);
        }
        assert(pairs[0].1.0 < bound);
        lemma_entry_ids(rest, key, bound);
    }
}

/// A copy of a list of names.
pub fn copy_names(names: &Vec<String>) -> (r: Vec<String>)
    ensures
        texts(r@) == texts(names@),
{
    let mut r: Vec<String> = Vec::new();
    let mut i: usize = 0;
    while i < names.len()
        invariant
            i <= names@.len(),
            texts(r@) == texts(names@).take(i as int),
        decreases names.len() - i,
    {
        r.push(names[i].clone());
        assert(texts(names@).take(i + 1) =~= texts(names@).take(i as int).push(names@[i as int]@));
        assert(texts(r@) =~= texts(names@).take(i + 1));
        i = i + 1;
    }
    assert(texts(names@).take(i as int) =~= texts(names@));
    r
}

/// Whether some pair's key is within one edit of a name.
pub open spec fn near_in<V>(pairs: Seq<(String, V)>, name: Seq<char>) -> bool {
    exists|i: int| 0 <= i < pairs.len() && one_edit_apart((#[trigger] pairs[i]).0@, name)
}

/// Whether a name is the key of some pair.
pub open spec fn key_in<V>(pairs: Seq<(String, V)>, name: Seq<char>) -> bool {
    exists|i: int| 0 <= i < pairs.len() && (#[trigger] pairs[i]).0@ == name
}

/// The first key within one edit of a name, if any is.
fn near_key<V>(pairs: &Vec<(String, V)>, name: &str) -> (r: Option<String>)
    ensures
        match r {
            Some(n) => one_edit_apart(n@, name@) && key_in(pairs@, n@) && near_in(pairs@, name@),
            None => !near_in(pairs@, name@),
        },
{
    let mut i: usize = 0;
    while i < pairs.len()
        invariant
            i <= pairs@.len(),
            forall|j: int| 0 <= j < i ==> !one_edit_apart((#[trigger] pairs@[j]).0@, name@),
        decreases pairs.len() - i,
    {
        if within_one_edit(pairs[i].0.as_str(), name) {
            let n = pairs[i].0.clone();
            assert(pairs@[i as int].0@ == n@);
            assert(one_edit_apart(pairs@[i as int].0@, name@));
            return Some(n);
        }
        i = i + 1;
    }
    None
}


/// What a float of this width is.
pub open spec fn float_of(width: u8) -> TyView {
    if width == 16 {
        TyView::F16
    } else if width == 32 {
        TyView::F32
    } else {
        TyView::F64
    }
}

/// A growing array of text.
pub open spec fn texts_growing() -> TyView {
    TyView::Arr { of: Box::new(TyView::Str), shape: Seq::empty(), length: Length::Grows }
}

/// `i64`.
pub open spec fn whole64() -> TyView {
    TyView::Int { bits: 64, signed: true }
}

/// Whether a type is one of the numbers, a `number` hole included.
pub open spec fn numeric(t: TyView) -> bool {
    match t {
        TyView::Int { .. } | TyView::Exact | TyView::F64 | TyView::F32 | TyView::F16 | TyView::Decimal {
            ..
        } | TyView::Hole(Hole::Number) => true,
        _ => false,
    }
}

/// The rule an operator breaks on two sides of these types, as the code and the sentence
/// it is reported with; none when it works on them.
pub open spec fn binary_complaint(op: OpKind, l: TyView, r: TyView) -> Option<(Seq<char>, Seq<char>)> {
    let w = op_word(op);
    if op == OpKind::And || op == OpKind::Or {
        if l != TyView::Bool || r != TyView::Bool {
            Some(("E0422"@, "`"@ + w + "` joins two things that are true or false."@))
        } else {
            None
        }
    } else if op == OpKind::Eq || op == OpKind::Ne {
        if l == r {
            None
        } else {
            Some(("E0441"@, "`"@ + w + "` compares two of the same thing."@))
        }
    } else if l == r && l == TyView::Hole(Hole::Any) {
        Some(("E0502"@, "`"@ + w + "` works on numbers, and `any` is not known to be one."@))
    } else if l != r || !numeric(l) {
        Some(("E0420"@, "`"@ + w + "` works on numbers."@))
    } else if l == TyView::Hole(Hole::Number) && (op == OpKind::Mod || op == OpKind::Pow) {
        Some(("E0503"@, "`"@ + w + "` does not work on every number, and `number` is every number."@))
    } else if (l == TyView::F32 || l == TyView::F16) && op == OpKind::Pow {
        Some(("E0495"@, "`^` on a `"@ + name_of(l) + "` is not built yet."@))
    } else if (l == TyView::F64 || l == TyView::F32 || l == TyView::F16 || l is Decimal) && op == OpKind::Mod {
        Some(("E0488"@, "`mod` asks what a division left over, and a `"@ + name_of(l) + "` division leaves nothing."@))
    } else if l is Decimal && op == OpKind::Pow {
        Some(("E0495"@, "`^` on a `"@ + name_of(l) + "` is not built yet."@))
    } else if l == TyView::Exact && op == OpKind::Mod {
        Some(("E0476"@, "`mod` asks what a division left over, and an `e` division leaves nothing."@))
    } else {
        None
    }
}

/// A diagnostic with one primary label.
pub open spec fn pointed(
    code: Seq<char>,
    message: Seq<char>,
    span: Span,
    note: Seq<char>,
    rule: Seq<char>,
    tips: Seq<Seq<char>>,
    fix: Seq<char>,
) -> DiagnosticView {
    DiagnosticView {
        code,
        message,
        rules: seq![rule],
        tips,
        fixes: seq![fix],
        labels: seq![(span, note, LabelStyle::Primary)],
    }
}

/// `a` or `an` and the name of each of two types: "an `i64` and a `bool`".
pub open spec fn both_named_view(l: TyView, r: TyView) -> Seq<char> {
    article_of(l) + " `"@ + name_of(l) + "` and "@ + article_of(r) + " `"@ + name_of(r) + "`"@
}

/// The whole of what an operator on two sides of these types reports, pointing at `span`:
/// the code and message [`binary_complaint`] gives, with the label, rule, tip and fix.
pub open spec fn binary_diagnostic(op: OpKind, l: TyView, r: TyView, span: Span) -> Option<DiagnosticView> {
    let w = op_word(op);
    if op == OpKind::And || op == OpKind::Or {
        if l != TyView::Bool || r != TyView::Bool {
            Some(pointed("E0422"@, "`"@ + w + "` joins two things that are true or false."@, span, both_named_view(l, r),
                "nothing is truthy — `and` and `or` are for `bool`, and there is no second way to be one"@,
                seq!["a comparison makes one, and so does a `bool` variable."@],
                "compare each side against something"@))
        } else {
            None
        }
    } else if op == OpKind::Eq || op == OpKind::Ne {
        if l == r {
            None
        } else {
            Some(pointed("E0441"@, "`"@ + w + "` compares two of the same thing."@, span, both_named_view(l, r),
                "nothing converts on its own, so two types are never equal — the question does not arise"@,
                Seq::empty(),
                "compare two things of the same type"@))
        }
    } else if l == r && l == TyView::Hole(Hole::Any) {
        Some(pointed("E0502"@, "`"@ + w + "` works on numbers, and `any` is not known to be one."@, span, "here"@,
            "a hole written `any` may be filled with a `str`, a `bool` or an array, and none of those orders or adds"@,
            seq!["`==` does work on an `any`, because every type answers that one."@],
            "say `number` instead of `any`, and the caller may only bring a number"@))
    } else if l != r || !numeric(l) {
        Some(pointed("E0420"@, "`"@ + w + "` works on numbers."@, span, both_named_view(l, r),
            "arithmetic and ordering are for numbers, and nothing converts on its own"@,
            seq!["an `i64` and an `e` are both numbers and are not the same number, so neither becomes the other."@],
            "use the same kind of number on both sides"@))
    } else if l == TyView::Hole(Hole::Number) && (op == OpKind::Mod || op == OpKind::Pow) {
        Some(pointed("E0503"@, "`"@ + w + "` does not work on every number, and `number` is every number."@, span, "here"@,
            "a hole has what all the types filling it have, and this one is refused on some of them"@,
            seq![if op == OpKind::Mod {
                "`mod` asks what a division left over, and a float, a decimal and an `e` leave nothing."@
            } else {
                "`^` is worked out rather than asked of a library, and that is built for `b64` alone."@
            }],
            "say the type you meant, rather than a hole"@))
    } else if (l == TyView::F32 || l == TyView::F16) && op == OpKind::Pow {
        Some(pointed("E0495"@, "`^` on a `"@ + name_of(l) + "` is not built yet."@, span, "here"@,
            "IEEE 754 only recommends how a power rounds, so Quench works it out itself rather than asking a library — and it does that at one width"@,
            seq!["working it out for a `b64` and rounding that down would round twice, which is once too many."@],
            "use a `b64`"@))
    } else if (l == TyView::F64 || l == TyView::F32 || l == TyView::F16 || l is Decimal) && op == OpKind::Mod {
        Some(pointed("E0488"@, "`mod` asks what a division left over, and a `"@ + name_of(l) + "` division leaves nothing."@, span, "here"@,
            "a float division answers with the nearest float there is, so nothing is left behind to ask about"@,
            seq!["`call remainder['a', 'b']` is the question IEEE 754 defines for floats, and its answer is exact."@],
            "`call remainder[…]`, or use `i64` for whole-number division"@))
    } else if l is Decimal && op == OpKind::Pow {
        Some(pointed("E0495"@, "`^` on a `"@ + name_of(l) + "` is not built yet."@, span, "here"@,
            "a decimal power is its own specification, and this has the binary one"@,
            Seq::empty(),
            "use a `b64`, or `x` a few times"@))
    } else if l == TyView::Exact && op == OpKind::Mod {
        Some(pointed("E0476"@, "`mod` asks what a division left over, and an `e` division leaves nothing."@, span, "here"@,
            "an `e` divided by an `e` is an `e`, exactly, so there is no remainder to ask about"@,
            seq!["`mod` is for the number types that round, which is every one of them but this."@],
            "use `i64` if you want whole-number division"@))
    } else {
        None
    }
}

/// What an operator gives on two sides of these types, when it works on them: a `bool`
/// for a comparison and for `and` and `or`, and otherwise the type of both sides.
pub open spec fn binary_type(op: OpKind, l: TyView, r: TyView) -> Option<TyView> {
    if binary_complaint(op, l, r) is Some {
        None
    } else if op == OpKind::And || op == OpKind::Or || tier_of(op) == Some(4u8) {
        Some(TyView::Bool)
    } else {
        Some(l)
    }
}

/// The type of a checked value, given the variables, the constants and the signatures it
/// names; none for an array written out, which has no type of its own, and none where
/// an operator is used on what it does not work on.
pub open spec fn typed(locals: Seq<Local>, constants: Seq<Constant>, signatures: Seq<Signature>, v: Value) -> Option<TyView>
    decreases v,
{
    match v {
        Value::Text(_) => Some(TyView::Str),
        Value::Number { bits, signed, .. } => Some(TyView::Int { bits, signed }),
        Value::Exact(_) => Some(TyView::Exact),
        Value::Decimal { digits, .. } => Some(TyView::Decimal { digits }),
        Value::Float { width, .. } => Some(float_of(width)),
        Value::Bool(_) => Some(TyView::Bool),
        Value::Copy(l) => Some(locals[l.0 as int].ty@),
        Value::Array { .. } => None,
        Value::Join(_) => Some(TyView::Str),
        Value::Said { .. } => Some(TyView::Str),
        Value::Slowly { .. } => Some(TyView::F64),
        Value::Maths { width, .. } => Some(float_of(width)),
        Value::Not(_) => Some(TyView::Bool),
        Value::Count(_) => Some(whole64()),
        Value::CountText(_) => Some(whole64()),
        Value::Pieces { which, .. } => Some(
            if which == 0 || which == 4 {
                TyView::Str
            } else if which == 1 {
                TyView::Bool
            } else if which == 2 {
                whole64()
            } else {
                texts_growing()
            },
        ),
        Value::Given { which } => Some(
            if which == 0 || which == 1 {
                TyView::Str
            } else if which == 2 {
                TyView::Bool
            } else {
                texts_growing()
            },
        ),
        Value::CanRead { .. } => Some(TyView::Bool),
        Value::Read { ty, .. } => Some(ty@),
        Value::Copied(of) => typed(locals, constants, signatures, *of),
        Value::Const(w) => Some(constants[w as int].ty@),
        Value::Call { func, fill, .. } => match signatures[func as int].returns {
            None => None,
            Some(answer) => Some(
                match fill {
                    Some(f) => filled_view(answer@, f@),
                    None => answer@,
                },
            ),
        },
        Value::At { array, .. } => match typed(locals, constants, signatures, *array) {
            None => None,
            Some(TyView::Arr { of, .. }) => Some(*of),
            Some(other) => Some(other),
        },
        Value::Binary { op, lhs, rhs } => match typed(locals, constants, signatures, *lhs) {
            None => None,
            Some(l) => match typed(locals, constants, signatures, *rhs) {
                None => None,
                Some(r) => binary_type(op, l, r),
            },
        },
    }
}

/// What working out a value's type reports, in order, as codes and sentences: what its
/// left side reports, then its right side when the left had a type, then the rule the
/// operator breaks when both had one.
pub open spec fn complaints(
    locals: Seq<Local>,
    constants: Seq<Constant>,
    signatures: Seq<Signature>,
    v: Value,
    span: Span,
) -> Seq<DiagnosticView>
    decreases v,
{
    match v {
        Value::Copied(of) => complaints(locals, constants, signatures, *of, span),
        Value::At { array, .. } => complaints(locals, constants, signatures, *array, span),
        Value::Binary { op, lhs, rhs } => match typed(locals, constants, signatures, *lhs) {
            None => complaints(locals, constants, signatures, *lhs, span),
            Some(l) => match typed(locals, constants, signatures, *rhs) {
                None => complaints(locals, constants, signatures, *lhs, span) + complaints(
                    locals,
                    constants,
                    signatures,
                    *rhs,
                    span,
                ),
                Some(r) => complaints(locals, constants, signatures, *lhs, span) + complaints(
                    locals,
                    constants,
                    signatures,
                    *rhs,
                    span,
                ) + match binary_diagnostic(op, l, r, span) {
                    Some(c) => seq![c],
                    None => Seq::empty(),
                },
            },
        },
        _ => Seq::empty(),
    }
}

/// `mod` is refused on two `e` numbers, which divide exactly and leave nothing over: the
/// value has no type, and after what its two sides report comes one E0476 pointing at it.
pub proof fn law_mod_is_refused_on_exact_numbers(
    locals: Seq<Local>,
    constants: Seq<Constant>,
    signatures: Seq<Signature>,
    lhs: Value,
    rhs: Value,
    span: Span,
)
    requires
        typed(locals, constants, signatures, lhs) == Some(TyView::Exact),
        typed(locals, constants, signatures, rhs) == Some(TyView::Exact),
    ensures
        ({
            let v = Value::Binary { op: OpKind::Mod, lhs: Box::new(lhs), rhs: Box::new(rhs) };
            let said = complaints(locals, constants, signatures, v, span);
            &&& typed(locals, constants, signatures, v) is None
            &&& said.len() == complaints(locals, constants, signatures, lhs, span).len()
                + complaints(locals, constants, signatures, rhs, span).len() + 1
            &&& said.last().code == "E0476"@
            &&& said.last().labels == seq![(span, "here"@, LabelStyle::Primary)]
        }),
{
}

/// `mod` works on two whole numbers of the same type, and gives that type, with nothing
/// to report beyond what the two sides report.
pub proof fn law_mod_works_on_whole_numbers(
    locals: Seq<Local>,
    constants: Seq<Constant>,
    signatures: Seq<Signature>,
    lhs: Value,
    rhs: Value,
    span: Span,
    bits: u8,
    signed: bool,
)
    requires
        typed(locals, constants, signatures, lhs) == Some(TyView::Int { bits, signed }),
        typed(locals, constants, signatures, rhs) == Some(TyView::Int { bits, signed }),
    ensures
        ({
            let v = Value::Binary { op: OpKind::Mod, lhs: Box::new(lhs), rhs: Box::new(rhs) };
            &&& typed(locals, constants, signatures, v) == Some(TyView::Int { bits, signed })
            &&& complaints(locals, constants, signatures, v, span) == complaints(
                locals,
                constants,
                signatures,
                lhs,
                span,
            ) + complaints(locals, constants, signatures, rhs, span)
        }),
{
    let v = Value::Binary { op: OpKind::Mod, lhs: Box::new(lhs), rhs: Box::new(rhs) };
    assert(complaints(locals, constants, signatures, v, span) =~= complaints(
        locals,
        constants,
        signatures,
        lhs,
        span,
    ) + complaints(locals, constants, signatures, rhs, span));
}

/// Whether every variable, constant and function a value names, where working out its
/// type reaches it, is one there is.
pub open spec fn refs_ok(locals: Seq<Local>, constants: Seq<Constant>, signatures: Seq<Signature>, v: Value) -> bool
    decreases v,
{
    match v {
        Value::Copy(l) => l.0 < locals.len(),
        Value::Const(w) => w < constants.len(),
        Value::Call { func, .. } => func < signatures.len(),
        Value::Copied(of) => refs_ok(locals, constants, signatures, *of),
        Value::At { array, .. } => refs_ok(locals, constants, signatures, *array),
        Value::Binary { lhs, rhs, .. } => refs_ok(locals, constants, signatures, *lhs) && (typed(
            locals,
            constants,
            signatures,
            *lhs,
        ) is Some ==> refs_ok(locals, constants, signatures, *rhs)),
        _ => true,
    }
}

/// Every diagnostic whole: code, message, labels, rules, tips and fixes.
pub open spec fn said(errors: Seq<Diagnostic>) -> Seq<DiagnosticView> {
    errors.map_values(|d: Diagnostic| d@)
}

/// `a` or `an`, then the type's name: "an `i64` and a `bool`".
fn both_named(l: &Ty, r: &Ty) -> (s: String)
    ensures
        s@ == article_of(l@) + " `"@ + name_of(l@) + "` and "@ + article_of(r@) + " `"@ + name_of(r@) + "`"@,
{
    let mut s = String::from_str(l.article());
    s.append(" `");
    s.append(l.name().as_str());
    s.append("` and ");
    s.append(r.article());
    s.append(" `");
    s.append(r.name().as_str());
    s.append("`");
    s
}


/// A growing array of text, the type of what comes in pieces.
fn texts_grown() -> (t: Ty)
    ensures
        t@ == texts_growing(),
{
    let shape: Vec<usize> = Vec::new();
    let t = Ty::Arr { of: Box::new(Ty::Str), shape, length: Length::Grows };
    assert(view_of(Ty::Str) == TyView::Str);
    assert(t@->Arr_shape =~= Seq::<usize>::empty());
    assert(t@ == texts_growing());
    t
}


/// The value of one decimal digit.
pub open spec fn digit_value(c: char) -> nat {
    if c == '0' {
        0
    } else if c == '1' {
        1
    } else if c == '2' {
        2
    } else if c == '3' {
        3
    } else if c == '4' {
        4
    } else if c == '5' {
        5
    } else if c == '6' {
        6
    } else if c == '7' {
        7
    } else if c == '8' {
        8
    } else {
        9
    }
}

/// The value of a run of decimal digits.
pub open spec fn digits_value(s: Seq<char>) -> nat
    decreases s.len(),
{
    if s.len() == 0 {
        0
    } else {
        digits_value(s.drop_last()) * 10 + digit_value(s.last())
    }
}

/// Whether every character is a decimal digit.
pub open spec fn all_digits(s: Seq<char>) -> bool {
    forall|i: int| 0 <= i < s.len() ==> '0' <= #[trigger] s[i] <= '9'
}

/// The digits of a number as `usize` reads it: everything after an optional `+`.
pub open spec fn unsigned_digits(w: Seq<char>) -> Seq<char> {
    if w.len() > 0 && w[0] == '+' {
        w.drop_first()
    } else {
        w
    }
}

/// What a `usize` reads from this text: one or more decimal digits, with an optional `+`
/// before them, that make a number the type holds.
pub open spec fn usize_read(w: Seq<char>) -> Option<nat> {
    let digits = unsigned_digits(w);
    if digits.len() > 0 && all_digits(digits) && digits_value(digits) <= usize::MAX {
        Some(digits_value(digits))
    } else {
        None
    }
}

pub(crate) proof fn lemma_digits_grow(s: Seq<char>, j: int, k: int)
    requires
        0 <= j <= k <= s.len(),
    ensures
        digits_value(s.take(j)) <= digits_value(s.take(k)),
    decreases k - j,
{
    if j < k {
        lemma_digits_grow(s, j, k - 1);
        assert(s.take(k).drop_last() =~= s.take(k - 1));
    }
}

pub(crate) proof fn lemma_digits_step(s: Seq<char>, k: int)
    requires
        0 <= k < s.len(),
    ensures
        digits_value(s.take(k + 1)) == digits_value(s.take(k)) * 10 + digit_value(s[k]),
{
    assert(s.take(k + 1).drop_last() =~= s.take(k));
    assert(s.take(k + 1).last() == s[k]);
}

pub(crate) fn digit_of(c: char) -> (d: usize)
    ensures
        d == digit_value(c),
        d <= 9,
{
    if c == '0' {
        0
    } else if c == '1' {
        1
    } else if c == '2' {
        2
    } else if c == '3' {
        3
    } else if c == '4' {
        4
    } else if c == '5' {
        5
    } else if c == '6' {
        6
    } else if c == '7' {
        7
    } else if c == '8' {
        8
    } else {
        9
    }
}

/// The number a piece of text says, read the way `usize` reads one.
fn read_usize(w: &str) -> (r: Option<usize>)
    ensures
        match (r, usize_read(w@)) {
            (Some(a), Some(b)) => a == b,
            (None, None) => true,
            _ => false,
        },
{
    let chars = chars_of(w);
    let start: usize = if chars.len() > 0 && chars[0] == '+' {
        1
    } else {
        0
    };
    let ghost digits = unsigned_digits(w@);
    assert(digits =~= chars@.skip(start as int));
    if start >= chars.len() {
        return None;
    }
    let mut n: usize = 0;
    let mut i: usize = start;
    assert(digits.take(0) =~= Seq::<char>::empty());
    while i < chars.len()
        invariant
            start <= i <= chars@.len(),
            chars@ == w@,
            digits == chars@.skip(start as int),
            digits == unsigned_digits(w@),
            digits.len() > 0,
            all_digits(digits.take(i - start)),
            n == digits_value(digits.take(i - start)),
        decreases chars.len() - i,
    {
        let c = chars[i];
        let ghost k = i - start;
        assert(digits[k] == c);
        if c < '0' || c > '9' {
            assert(!all_digits(digits));
            return None;
        }
        let d = digit_of(c);
        proof {
            lemma_digits_step(digits, k);
        }
        let grown = match n.checked_mul(10) {
            Some(m) => m.checked_add(d),
            None => None,
        };
        match grown {
            Some(v) => {
                n = v;
            },
            None => {
                proof {
                    assert(digits.take(digits.len() as int) =~= digits);
                    lemma_digits_grow(digits, k + 1, digits.len() as int);
                }
                return None;
            },
        }
        assert(all_digits(digits.take(k + 1))) by {
            assert forall|j: int| 0 <= j < k + 1 implies '0' <= #[trigger] digits.take(k + 1)[j] <= '9' by {
                if j < k {
                    assert(digits.take(k + 1)[j] == digits.take(k)[j]);
                }
            }
        }
        i = i + 1;
    }
    assert(digits.take(i - start) =~= digits);
    Some(n)
}

/// What the `i`th size of a shape says.
pub open spec fn size_at(source: &str, shape: Seq<Span>, i: int) -> Option<Size> {
    size_read(text_at(source, shape[i]), shape[i])
}

/// What one size of a shape says: `grow`, `any`, or a whole number above nought.
pub open spec fn size_read(w: Seq<char>, at: Span) -> Option<Size> {
    if w == "grow"@ {
        Some(Size::Grows(at))
    } else if w == "any"@ {
        Some(Size::Unknown(at))
    } else {
        match usize_read(w) {
            Some(n) => if n > 0 {
                Some(Size::Fixed(n as usize))
            } else {
                None
            },
            None => None,
        }
    }
}



/// How many of a thing, in words: "1 size", "2 sizes".
pub open spec fn counted_view(n: nat, noun: Seq<char>) -> Seq<char> {
    decimal(n) + " "@ + noun + if n == 1 {
        ""@
    } else {
        "s"@
    }
}

pub(crate) fn counted(n: usize, noun: &str) -> (s: String)
    requires
        n <= u64::MAX,
    ensures
        s@ == counted_view(n as nat, noun@),
{
    let mut s = String::new();
    push_decimal(&mut s, n as u64);
    s.append(" ");
    s.append(noun);
    if n != 1 {
        s.append("s");
    } else {
        s.append("");
    }
    s
}

/// What a whole shape says, when it says something and every size in it can be read.
pub open spec fn shape_read(source: &str, shape: Seq<Span>, shape_span: Option<Span>) -> Option<Seq<Size>> {
    if shape_span is None || shape.len() == 0 || exists|i: int| 0 <= i < shape.len() && (#[trigger] size_at(source, shape, i)) is None {
        None
    } else {
        Some(Seq::new(shape.len(), |i: int| size_at(source, shape, i)->0))
    }
}

/// One allocation's type around what it holds, from the sizes it was given.
pub open spec fn allocated(sizes: Seq<Size>, of: TyView) -> TyView {
    TyView::Arr { of: Box::new(of), shape: numbers_of(sizes_after_length(sizes)), length: length_said(sizes) }
}

/// Whether every size after the one that says the length is a number.
pub open spec fn all_numbers_after_length(sizes: Seq<Size>) -> bool {
    forall|i: int| 0 <= i < sizes_after_length(sizes).len() ==> (#[trigger] sizes_after_length(sizes)[i]) is Fixed
}

/// `t`, wrapped in one allocation for each of the first `j` sizes, the last of them
/// innermost.
pub open spec fn wrapped_out(sizes: Seq<Size>, j: int, t: TyView) -> TyView
    decreases j,
{
    if j <= 0 {
        t
    } else {
        wrapped_out(sizes, j - 1, allocated(seq![sizes[j - 1]], t))
    }
}

/// The sizes from `from` on, as a list of their own.
fn tail_of(sizes: &Vec<Size>, from: usize) -> (v: Vec<Size>)
    requires
        from <= sizes@.len(),
    ensures
        v@ == sizes@.skip(from as int),
{
    let mut v: Vec<Size> = Vec::new();
    let mut i: usize = from;
    while i < sizes.len()
        invariant
            from <= i <= sizes@.len(),
            v@ == sizes@.subrange(from as int, i as int),
        decreases sizes.len() - i,
    {
        v.push(sizes[i]);
        assert(v@ =~= sizes@.subrange(from as int, i + 1));
        i = i + 1;
    }
    assert(v@ =~= sizes@.skip(from as int));
    v
}

impl<'a> Checker<'a> {
    /// Which variable a name means, in the innermost scope that has it.
    pub fn seen(&self, name: &str) -> (r: Option<LocalId>)
        ensures
            r == seen_in(self.scope@, name@),
    {
        let mut i: usize = self.scope.len();
        assert(self.scope@.take(i as int) =~= self.scope@);
        while i > 0
            invariant
                i <= self.scope@.len(),
                seen_in(self.scope@, name@) == seen_in(self.scope@.take(i as int), name@),
            decreases i,
        {
            let ghost before = self.scope@.take(i as int);
            assert(before.drop_last() =~= self.scope@.take(i - 1));
            assert(before.last() == self.scope@[i - 1]);
            match find(&self.scope[i - 1], name) {
                Some(id) => {
                    return Some(*id);
                },
                None => {},
            }
            i = i - 1;
        }
        None
    }

    /// Whether the first link of this path is a file the file being read may name.
    pub fn imports_a(&self, path: &str) -> (b: bool)
        ensures
            b == match entry_of(self.imports@, self.at_file@) {
                Some(used) => texts(used@).contains(first_link(path@)),
                None => false,
            },
    {
        let chars = chars_of(path);
        let mut first = String::new();
        let mut i: usize = 0;
        assert(chars@.skip(0) =~= path@);
        assert(first@ + first_link(chars@.skip(0)) =~= first_link(path@));
        while i < chars.len() && chars[i] != '.'
            invariant
                i <= chars@.len(),
                chars@ == path@,
                forall|j: int| 0 <= j < i ==> chars@[j] != '.',
                first@ + first_link(chars@.skip(i as int)) == first_link(path@),
            decreases chars.len() - i,
        {
            let ghost rest = chars@.skip(i as int);
            assert(rest.drop_first() =~= chars@.skip(i + 1));
            push_char(&mut first, chars[i]);
            assert(first@ + first_link(chars@.skip(i + 1)) =~= first@.drop_last() + (seq![chars@[i as int]] + first_link(chars@.skip(i + 1))));
            i = i + 1;
        }
        assert(first_link(chars@.skip(i as int)) =~= Seq::<char>::empty());
        assert(first@ =~= first_link(path@));
        match find(&self.imports, self.at_file.as_str()) {
            Some(used) => {
                let mut j: usize = 0;
                while j < used.len()
                    invariant
                        j <= used@.len(),
                        first@ == first_link(path@),
                        entry_of(self.imports@, self.at_file@) == Some(*used),
                        forall|k: int| 0 <= k < j ==> texts(used@)[k] != first@,
                    decreases used.len() - j,
                {
                    if same_str(used[j].as_str(), first.as_str()) {
                        assert(texts(used@)[j as int] == first@);
                        assert(texts(used@).contains(first_link(path@)));
                        return true;
                    }
                    j = j + 1;
                }
                false
            },
            None => false,
        }
    }

    /// What a name finds among `pairs`: this module, then the one around it, and out to
    /// the top of the file, the innermost match winning; and failing that, a path whose
    /// first link is a file this one may name, read from that file's top.
    pub open spec fn reach_view(&self, pairs: Seq<(String, u32)>, name: Seq<char>) -> Option<u32> {
        match found_outward(pairs, self.at_file@, texts(self.at_module@), name, self.at_module@.len() as int) {
            Some(w) => Some(w),
            None => if (match entry_of(self.imports@, self.at_file@) {
                Some(used) => texts(used@).contains(first_link(name)),
                None => false,
            }) {
                entry_of(pairs, name)
            } else {
                None
            },
        }
    }

    fn reach(&self, pairs: &Vec<(String, u32)>, name: &str) -> (r: Option<u32>)
        ensures
            r == self.reach_view(pairs@, name@),
    {
        let ghost at = texts(self.at_module@);
        let mut depth: usize = self.at_module.len();
        loop
            invariant
                depth <= self.at_module@.len(),
                at == texts(self.at_module@),
                found_outward(pairs@, self.at_file@, at, name@, self.at_module@.len() as int)
                    == found_outward(pairs@, self.at_file@, at, name@, depth as int),
            ensures
                found_outward(pairs@, self.at_file@, at, name@, self.at_module@.len() as int) is None,
            decreases depth,
        {
            let key = qualified(self.at_file.as_str(), self.at_module.as_slice(), depth, name);
            match find(pairs, key.as_str()) {
                Some(which) => {
                    return Some(*which);
                },
                None => {},
            }
            if depth == 0 {
                assert(found_outward(pairs@, self.at_file@, at, name@, -1) is None);
                assert(found_outward(pairs@, self.at_file@, at, name@, 0) is None);
                break;
            }
            depth = depth - 1;
        }
        if self.imports_a(name) {
            match find(pairs, name) {
                Some(which) => Some(*which),
                None => None,
            }
        } else {
            None
        }
    }

    /// Which function a name finds, walking outward from the module being read.
    pub fn reachable(&self, name: &str) -> (r: Option<u32>)
        ensures
            r == self.reach_view(self.named@, name@),
    {
        self.reach(&self.named, name)
    }

    /// Which constant a name finds, the same way.
    pub fn reachable_constant(&self, name: &str) -> (r: Option<u32>)
        ensures
            r == self.reach_view(self.known@, name@),
    {
        self.reach(&self.known, name)
    }

    /// The source a span covers.
    pub fn text(&self, span: Span) -> (t: &'a str)
        requires
            cuts(self.source, span),
        ensures
            bytes_of(t) == piece(self.source, span),
            t@ == text_at(self.source, span),
    {
        sub_str(self.source, span.start, span.end)
    }

    /// Whether `after` is this with nothing changed but the errors.
    pub open spec fn only_errors(&self, after: &Checker<'a>) -> bool {
        *after == (Checker { errors: after.errors, ..*self })
    }

    /// Whether everything but the errors, the body being built and the hole is as it was.
    pub open spec fn same_tables(&self, other: &Checker<'a>) -> bool {
        self.same_reading(other) && self.libraries == other.libraries
    }

    /// The same, leaving out which of the language's modules each file uses. Where
    /// names are looked for is part of it.
    pub open spec fn same_reading(&self, other: &Checker<'a>) -> bool {
        &&& self.source == other.source
        &&& self.locals == other.locals
        &&& self.scope == other.scope
        &&& self.depth == other.depth
        &&& self.signatures == other.signatures
        &&& self.named == other.named
        &&& self.constants == other.constants
        &&& self.known == other.known
        &&& self.at_file == other.at_file
        &&& self.imports == other.imports
        &&& self.at_module == other.at_module
        &&& self.modules == other.modules
        &&& self.opening == other.opening
        &&& self.at_top == other.at_top
    }

    /// Where this is being written, the way a message names it: the file and the modules
    /// inside it, joined with dots.
    pub open spec fn here_view(&self) -> Seq<char> {
        trimmed(qualified_view(self.at_file@, texts(self.at_module@), ""@))
    }

    fn here(&self) -> (s: String)
        ensures
            s@ == self.here_view(),
    {
        let key = qualified(self.at_file.as_str(), self.at_module.as_slice(), self.at_module.len(), "");
        assert(texts(self.at_module@).take(self.at_module@.len() as int) =~= texts(self.at_module@));
        without_trailing_dots(key.as_str())
    }

    /// The key of the `d`th module on the way to something in module `at` of `file`.
    pub open spec fn module_key(file: Seq<char>, at: Seq<Seq<char>>, d: int) -> Seq<char> {
        qualified_view(file, at.take(d - 1), at[d - 1])
    }

    /// Whether the `d`th module on the way may be named from here: it is not a module
    /// anyone declared, or what it says reaches here.
    pub open spec fn module_passes(&self, file: Seq<char>, at: Seq<Seq<char>>, d: int) -> bool {
        match entry_of(self.modules@, Self::module_key(file, at, d)) {
            None => true,
            Some(k) => reaches_view(
                k.visibility,
                self.at_file@,
                texts(self.at_module@),
                k.in_file@,
                texts(k.in_module@),
            ),
        }
    }

    /// How a message names the `d`th module on the way: by its modules alone inside this
    /// file, and by its whole key in another.
    pub open spec fn module_shown(&self, file: Seq<char>, at: Seq<Seq<char>>, d: int) -> Seq<char> {
        if file == self.at_file@ {
            joined(at.take(d), "."@)
        } else {
            Self::module_key(file, at, d)
        }
    }

    /// The first module on the way that may not be named from here, with what it says
    /// and where it was named.
    fn first_blocked(&self, file: &str, at: &[String]) -> (r: Option<(usize, Visibility, Span)>)
        ensures
            match r {
                None => forall|d: int| 1 <= d <= at@.len() ==> #[trigger] self.module_passes(file@, texts(at@), d),
                Some((d, v, span)) => {
                    &&& 1 <= d <= at@.len()
                    &&& !self.module_passes(file@, texts(at@), d as int)
                    &&& forall|e: int| 1 <= e < d ==> #[trigger] self.module_passes(file@, texts(at@), e)
                    &&& entry_of(self.modules@, Self::module_key(file@, texts(at@), d as int)) matches Some(k)
                        && k.visibility == v && k.at == span
                },
            },
    {
        let mut i: usize = 0;
        while i < at.len()
            invariant
                i <= at@.len(),
                forall|e: int| 1 <= e <= i ==> #[trigger] self.module_passes(file@, texts(at@), e),
            decreases at.len() - i,
        {
            let depth = i + 1;
            let key = qualified(file, at, i, at[i].as_str());
            assert(texts(at@)[depth - 1] == at@[depth - 1]@);
            match find(&self.modules, key.as_str()) {
                Some(known) => {
                    if !known.visibility.reaches(
                        (self.at_file.as_str(), self.at_module.as_slice()),
                        (known.in_file.as_str(), known.in_module.as_slice()),
                    ) {
                        return Some((depth, known.visibility, known.at));
                    }
                },
                None => {},
            }
            i = i + 1;
        }
        None
    }

    /// What reaching into a module that may not be named from here reports: E0513 for
    /// the first such module on the way, pointing at what it says and at `whole`.
    pub open spec fn module_refused(&self, after: &Checker<'a>, file: Seq<char>, at: Seq<Seq<char>>, whole: Span) -> bool {
        exists|d: int|
                {
                    &&& 1 <= d <= at.len()
                    &&& !self.module_passes(file, at, d)
                    &&& (forall|e: int| 1 <= e < d ==> #[trigger] self.module_passes(file, at, e))
                    &&& after.errors@.len() == self.errors@.len() + 1
                    &&& after.errors@.drop_last() == self.errors@
                    &&& after.errors@.last().code@ == "E0513"@
                    &&& after.errors@.last().message@ == "the module `'"@ + self.module_shown(
                        file,
                        at,
                        d,
                    ) + "'` says `"@ + visibility_word(
                        entry_of(self.modules@, Self::module_key(file, at, d))->0.visibility,
                    ) + "`, and this is written in `"@ + self.here_view() + "`."@
                    &&& after.errors@.last()@ == (DiagnosticView {
                        code: "E0513"@,
                        message: after.errors@.last().message@,
                        rules: seq!["a module says who may see it, the way everything else at the top of a file does"@],
                        tips: seq![
                            "what is inside it may say something wider, and never reach further than the module around it does."@,
                        ],
                        fixes: seq!["widen what the module says, or move this inside it"@],
                        labels: seq![
                            (
                                entry_of(self.modules@, Self::module_key(file, at, d))->0.at,
                                "`"@ + visibility_word(
                                    entry_of(self.modules@, Self::module_key(file, at, d))->0.visibility,
                                ) + "` here"@,
                                LabelStyle::Secondary,
                            ),
                            (whole, "and reached into here"@, LabelStyle::Primary),
                        ],
                    })
                }
    }


    /// Whether every module on the way to something in module `at` of `file` may be
    /// named from here. The first that may not is reported, as E0513, and the answer is
    /// no.
    pub fn modules_reach(&mut self, file: &str, at: &[String], whole: Span) -> (r: bool)
        ensures
            old(self).same_tables(&*final(self)),
            final(self).body == old(self).body,
            final(self).hole == old(self).hole,
            r == forall|d: int| 1 <= d <= at@.len() ==> #[trigger] old(self).module_passes(file@, texts(at@), d),
            r ==> final(self).errors == old(self).errors,
            !r ==> old(self).module_refused(&*final(self), file@, texts(at@), whole),
    {
        match self.first_blocked(file, at) {
            None => true,
            Some((depth, visibility, at_span)) => {
                let shown = if same_str(file, self.at_file.as_str()) {
                    dot_joined(at, depth)
                } else {
                    qualified(file, at, depth - 1, at[depth - 1].as_str())
                };
                assert(texts(at@)[depth - 1] == at@[depth - 1]@);
                let said = visibility.word();
                let here = self.here();
                let mut message = String::from_str("the module `'");
                message.append(shown.as_str());
                message.append("'` says `");
                message.append(said);
                message.append("`, and this is written in `");
                message.append(here.as_str());
                message.append("`.");
                let note = around("`", said, "` here");
                let d = Diagnostic::new("E0513", message.as_str())
                    .secondary(at_span, note.as_str())
                    .primary(whole, "and reached into here")
                    .rule("a module says who may see it, the way everything else at the top of a file does")
                    .tip("what is inside it may say something wider, and never reach further than the module around it does.")
                    .fix("widen what the module says, or move this inside it");
                let ghost dv = d@;
                self.errors.push(d);
                proof {
                    assert(self.errors@.drop_last() =~= old(self).errors@);
                    let k = entry_of(old(self).modules@, Self::module_key(file@, texts(at@), depth as int))->0;
                    assert(dv.labels == seq![
                        (k.at, "`"@ + visibility_word(k.visibility) + "` here"@, LabelStyle::Secondary),
                        (whole, "and reached into here"@, LabelStyle::Primary),
                    ]);
                    assert(self.errors@.last()@ == dv);
                }
                false
            },
        }
    }

    /// `break`: leaving the loop it is written in, or E0446 where there is none.
    pub fn leave(&mut self, word: Span)
        ensures
            old(self).same_tables(&*final(self)),
            final(self).hole == old(self).hole,
            old(self).depth == 0 ==> {
                &&& final(self).body == old(self).body
                &&& final(self).errors@.len() == old(self).errors@.len() + 1
                &&& final(self).errors@.drop_last() == old(self).errors@
                &&& final(self).errors@.last().code@ == "E0446"@
                &&& final(self).errors@.last().message@ == "`break` is written outside a loop."@
                &&& final(self).errors@.last()@ == pointed(
                    "E0446"@,
                    "`break` is written outside a loop."@,
                    word,
                    "here"@,
                    "`break` leaves the loop it is written in, and there is none"@,
                    seq!["an `if` is not a loop. `break` looks past every one of them to the nearest `loop`."@],
                    "put it inside a `loop`"@,
                )
            },
            old(self).depth != 0 ==> {
                &&& final(self).body@ == old(self).body@.push(Stmt::Break)
                &&& final(self).errors == old(self).errors
            },
    {
        if self.depth == 0 {
            self.errors.push(
                Diagnostic::new("E0446", "`break` is written outside a loop.")
                    .primary(word, "here")
                    .rule("`break` leaves the loop it is written in, and there is none")
                    .tip("an `if` is not a loop. `break` looks past every one of them to the nearest `loop`.")
                    .fix("put it inside a `loop`"),
            );
            proof {
                assert(self.errors@.drop_last() =~= old(self).errors@);
            }
            return;
        }
        self.body.push(Stmt::Break);
    }

    /// `any` or `number` where a type would go. Opening a signature introduces the
    /// function's hole; the same word again anywhere in that function is that hole; a
    /// different word is E0500, and a hole word anywhere else is E0501.
    pub fn a_hole(&mut self, asked: Hole, link: Span) -> (r: Option<Ty>)
        ensures
            old(self).same_tables(&*final(self)),
            final(self).body == old(self).body,
            match old(self).hole {
                None => if old(self).opening {
                    &&& r matches Some(t) && t@ == TyView::Hole(asked)
                    &&& final(self).hole == Some(asked)
                    &&& final(self).errors == old(self).errors
                } else {
                    &&& r is None
                    &&& final(self).hole == old(self).hole
                    &&& final(self).errors@.len() == old(self).errors@.len() + 1
                    &&& final(self).errors@.drop_last() == old(self).errors@
                    &&& final(self).errors@.last().code@ == "E0501"@
                    &&& final(self).errors@.last().message@ == "`"@ + hole_word(asked)
                        + "` is a hole, and there is no function here to fill it."@
                    &&& final(self).errors@.last()@ == pointed(
                        "E0501"@,
                        "`"@ + hole_word(asked) + "` is a hole, and there is no function here to fill it."@,
                        link,
                        "here"@,
                        "a hole is opened by a function's signature and filled by whoever calls it"@,
                        seq!["inside such a function it may be written again, and it means that same hole. Nowhere else can."@],
                        "name a type"@,
                    )
                },
                Some(already) => if already == asked {
                    &&& r matches Some(t) && t@ == TyView::Hole(asked)
                    &&& final(self).hole == old(self).hole
                    &&& final(self).errors == old(self).errors
                } else {
                    &&& r is None
                    &&& final(self).hole == old(self).hole
                    &&& final(self).errors@.len() == old(self).errors@.len() + 1
                    &&& final(self).errors@.drop_last() == old(self).errors@
                    &&& final(self).errors@.last().code@ == "E0500"@
                    &&& final(self).errors@.last().message@ == "this function opened `"@ + hole_word(already)
                        + "`, and this says `"@ + hole_word(asked) + "`."@
                    &&& final(self).errors@.last()@ == pointed(
                        "E0500"@,
                        "this function opened `"@ + hole_word(already) + "`, and this says `"@ + hole_word(asked) + "`."@,
                        link,
                        "`"@ + hole_word(asked) + "` here"@,
                        "a function has one hole, and every mention of it says the same word"@,
                        seq!["`any` and `number` are different holes: one takes every type and forbids `<`, and the other takes the numbers and allows it."@],
                        "say `"@ + hole_word(already) + "` here too"@,
                    )
                },
            },
    {
        match self.hole {
            None => {
                if self.opening {
                    self.hole = Some(asked);
                    Some(Ty::Hole(asked))
                } else {
                    let message = around("`", asked.word(), "` is a hole, and there is no function here to fill it.");
                    self.errors.push(
                        Diagnostic::new("E0501", message.as_str())
                            .primary(link, "here")
                            .rule("a hole is opened by a function's signature and filled by whoever calls it")
                            .tip("inside such a function it may be written again, and it means that same hole. Nowhere else can.")
                            .fix("name a type"),
                    );
                    proof {
                        assert(self.errors@.drop_last() =~= old(self).errors@);
                    }
                    None
                }
            },
            Some(already) => {
                if already == asked {
                    Some(Ty::Hole(asked))
                } else {
                    let mut message = String::from_str("this function opened `");
                    message.append(already.word());
                    message.append("`, and this says `");
                    message.append(asked.word());
                    message.append("`.");
                    let note = around("`", asked.word(), "` here");
                    let fix = around("say `", already.word(), "` here too");
                    self.errors.push(
                        Diagnostic::new("E0500", message.as_str())
                            .primary(link, note.as_str())
                            .rule("a function has one hole, and every mention of it says the same word")
                            .tip("`any` and `number` are different holes: one takes every type and forbids `<`, and the other takes the numbers and allows it.")
                            .fix(fix.as_str()),
                    );
                    proof {
                        assert(self.errors@.drop_last() =~= old(self).errors@);
                    }
                    None
                }
            },
        }
    }

    /// What reading an import of one of the language's own modules does: see
    /// [`Checker::library`].
    pub open spec fn library_read(&self, after: &Checker<'a>, name: Span, span: Span) -> bool {
        &&& self.same_reading(after)
        &&& after.body == self.body
        &&& after.hole == self.hole
        &&& {
            let w = text_at(self.source, name);
            let had = listed_for(self.libraries@, self.at_file@);
            if !a_library(w) {
                &&& after.libraries == self.libraries
                &&& after.errors@.len() == self.errors@.len() + 1
                &&& after.errors@.drop_last() == self.errors@
                &&& after.errors@.last().code@ == "E0522"@
                &&& after.errors@.last().message@ == "`"@ + w + "` is not a module the language has."@
                &&& after.errors@.last()@ == pointed(
                    "E0522"@,
                    "`"@ + w + "` is not a module the language has."@,
                    name,
                    "here"@,
                    "a bare word in an import is one of Quench's own modules"@,
                    seq![
                        "they are `maths`, `text` and `input`. A file of your own is a marked name instead — `import ['"@
                            + w + "'];`."@,
                    ],
                    "check the spelling, or put marks round it"@,
                )
            } else if had.contains(w) {
                &&& after.libraries == self.libraries
                &&& after.errors@.len() == self.errors@.len() + 1
                &&& after.errors@.drop_last() == self.errors@
                &&& after.errors@.last().code@ == "E0517"@
                &&& after.errors@.last().message@ == "`"@ + w + "` is imported twice."@
                &&& after.errors@.last()@ == pointed(
                    "E0517"@,
                    "`"@ + w + "` is imported twice."@,
                    span,
                    "here"@,
                    "one import makes a module nameable, and a second says the same thing again"@,
                    Seq::empty(),
                    "remove one of them"@,
                )
            } else {
                &&& after.errors == self.errors
                &&& listed_for(after.libraries@, self.at_file@) == had.push(w)
                &&& forall|k: Seq<char>|
                    k != self.at_file@ ==> entry_of(after.libraries@, k) == entry_of(
                        self.libraries@,
                        k,
                    )
            }
        }
    }

    /// `import maths;`: one of the language's own modules, made nameable in this file.
    /// A word that is not one is E0522, and one already imported is E0517.
    pub fn library(&mut self, name: Span, span: Span)
        requires
            cuts(old(self).source, name),
        ensures
            old(self).library_read(&*final(self), name, span),
    {
        let wanted = self.text(name);
        if !is_library(wanted) {
            let message = around("`", wanted, "` is not a module the language has.");
            let tip = around(
                "they are `maths`, `text` and `input`. A file of your own is a marked name instead — `import ['",
                wanted,
                "'];`.",
            );
            self.errors.push(
                Diagnostic::new("E0522", message.as_str())
                    .primary(name, "here")
                    .rule("a bare word in an import is one of Quench's own modules")
                    .tip(tip.as_str())
                    .fix("check the spelling, or put marks round it"),
            );
            proof {
                assert(self.errors@.drop_last() =~= old(self).errors@);
            }
            return;
        }
        let ghost libs = self.libraries@;
        match find_index(&self.libraries, self.at_file.as_str()) {
            Some(i) => {
                proof {
                    lemma_entry_at(libs, self.at_file@, i as int);
                }
                let already = holds(&self.libraries[i].1, wanted);
                if already {
                    let message = around("`", wanted, "` is imported twice.");
                    self.errors.push(
                        Diagnostic::new("E0517", message.as_str())
                            .primary(span, "here")
                            .rule("one import makes a module nameable, and a second says the same thing again")
                            .fix("remove one of them"),
                    );
                    proof {
                        assert(self.errors@.drop_last() =~= old(self).errors@);
                    }
                    return;
                }
                let mut entry = self.libraries.remove(i);
                let ghost before = entry.1@;
                entry.1.push(String::from_str(wanted));
                self.libraries.insert(i, entry);
                proof {
                    assert(self.libraries@ =~= libs.update(i as int, entry));
                    assert(texts(entry.1@) =~= texts(before).push(wanted@));
                    assert(!texts(before).contains(wanted@));
                    lemma_entry_update(libs, i as int, entry, self.at_file@);
                    assert forall|k: Seq<char>| k != old(self).at_file@ implies entry_of(self.libraries@, k) == entry_of(libs, k) by {
                        lemma_entry_update(libs, i as int, entry, k);
                    }
                }
            },
            None => {
                proof {
                    lemma_entry_at(libs, self.at_file@, libs.len() as int);
                }
                let entry = (self.at_file.clone(), vec![String::from_str(wanted)]);
                self.libraries.push(entry);
                proof {
                    assert(texts(entry.1@) =~= Seq::<Seq<char>>::empty().push(wanted@));
                    lemma_entry_push(libs, entry, self.at_file@);
                    assert forall|k: Seq<char>| k != old(self).at_file@ implies entry_of(self.libraries@, k) == entry_of(libs, k) by {
                        lemma_entry_push(libs, entry, k);
                    }
                }
            },
        }
    }

    /// What reading who may see a declaration does: see [`Checker::seen_by`].
    pub open spec fn seen_as(
        &self,
        after: &Checker<'a>,
        chain: Seq<Span>,
        word: Span,
        what: Seq<char>,
        r: Option<Visibility>,
    ) -> bool {
        &&& self.same_tables(after)
        &&& after.body == self.body
        &&& after.hole == self.hole
        &&& {
            let found = visibilities_in(self.source, after_first(chain));
            let doubles = if found.len() == 0 { 0 } else { found.len() - 1 };
            let e = self.errors@.len();
            let refused = found.len() == 0 || boundary_missing(found[0].0, self.at_module@.len() as int);
            &&& r == if refused { None } else { Some(found[0].0) }
            &&& after.errors@.len() == e + doubles + if refused { 1int } else { 0int }
            &&& after.errors@.take(e as int) == self.errors@
            &&& forall|j: int| e <= j < e + doubles ==> (#[trigger] after.errors@[j]).code@ == "E0458"@
            &&& forall|j: int|
                e <= j < e + doubles ==> (#[trigger] after.errors@[j])@ == twice_seen(
                    self.source,
                    found[0].1,
                    found[j - e + 1].1,
                )
            &&& found.len() == 0 ==> after.errors@.last().code@ == "E0459"@
                && after.errors@.last().message@ == "this "@ + what + " does not say who can see it."@
                && after.errors@.last()@ == pointed(
                "E0459"@,
                "this "@ + what + " does not say who can see it."@,
                word,
                "here"@,
                "everything at the top of a file or a module says one of `module`, `parent`, `file`, `program` or `export`, and silence is not one of them"@,
                seq!["`file` is the careful answer: nothing outside this file can name it."@],
                "`file` here, `module` for this module alone, `export` for anything outside the program"@,
            )
            &&& found.len() > 0 && refused ==> after.errors@.last().code@ == "E0512"@
                && after.errors@.last().message@ == "`"@ + visibility_word(found[0].0)
                    + "` says a boundary that is not here."@
                && after.errors@.last()@ == pointed(
                "E0512"@,
                "`"@ + visibility_word(found[0].0) + "` says a boundary that is not here."@,
                found[0].1,
                if found[0].0 == Visibility::Module {
                    "there is no module around this"@
                } else {
                    "there is no module around the one this is in"@
                },
                "`module`, `parent`, `file`, `program` and `export` are the five, narrowest first, and each names a boundary a name may cross"@,
                seq!["`module` wants a module around it, and `parent` wants one around that."@],
                "`file` here"@,
            )
        }
    }

    /// Who may see a declaration, from the links of its chain after the first: the one
    /// visibility word it says. Each further one is E0458; none at all is E0459; and
    /// `module` or `parent` where that boundary is not there is E0512.
    pub fn seen_by(&mut self, chain: &[Span], word: Span, what: &str) -> (r: Option<Visibility>)
        requires
            forall|i: int| 0 <= i < chain@.len() ==> cuts(old(self).source, #[trigger] chain@[i]),
        ensures
            old(self).seen_as(&*final(self), chain@, word, what@, r),
    {
        let ghost links = after_first(chain@);
        let ghost e = self.errors@.len();
        let mut found: Option<(Visibility, Span)> = None;
        let mut i: usize = 1;
        proof {
            if chain@.len() > 0 {
                assert(chain@.subrange(1, 1) =~= Seq::<Span>::empty());
            }
        }
        while i < chain.len()
            invariant
                1 <= i,
                chain@.len() == 0 || i <= chain@.len(),
                forall|k: int| 0 <= k < chain@.len() ==> cuts(self.source, #[trigger] chain@[k]),
                old(self).same_tables(&*self),
                self.body == old(self).body,
                self.hole == old(self).hole,
                e == old(self).errors@.len(),
                found matches Some(f) ==> cuts(self.source, f.1),
                ({
                    let seen = if chain@.len() == 0 {
                        Seq::<(Visibility, Span)>::empty()
                    } else {
                        visibilities_in(self.source, chain@.subrange(1, i as int))
                    };
                    &&& found == if seen.len() == 0 { None } else { Some(seen[0]) }
                    &&& self.errors@.len() == e + if seen.len() == 0 { 0 } else { seen.len() - 1 }
                    &&& self.errors@.take(e as int) == old(self).errors@
                    &&& forall|j: int| e <= j < self.errors@.len() ==> (#[trigger] self.errors@[j]).code@ == "E0458"@
                    &&& forall|j: int|
                        e <= j < self.errors@.len() ==> (#[trigger] self.errors@[j])@ == twice_seen(
                            self.source,
                            seen[0].1,
                            seen[j - e + 1].1,
                        )
                }),
            decreases chain.len() - i,
        {
            let ghost seen = visibilities_in(self.source, chain@.subrange(1, i as int));
            let ghost before = self.errors@;
            proof {
                let next = chain@.subrange(1, i + 1);
                assert(next.drop_last() =~= chain@.subrange(1, i as int));
                assert(next.last() == chain@[i as int]);
            }
            let link = chain[i];
            let said = self.text(link);
            match Visibility::from_word(said) {
                None => {},
                Some(visibility) => {
                    match found {
                        None => {
                            found = Some((visibility, link));
                        },
                        Some((_, first)) => {
                            let first_said = self.text(first);
                            let before_note = around("`", first_said, "` here");
                            let after_note = around("and `", said, "` here");
                            let d = Diagnostic::new("E0458", "this says twice who can see it.")
                                .secondary(first, before_note.as_str())
                                .primary(link, after_note.as_str())
                                .rule("a declaration says one of `module`, `parent`, `file`, `program` or `export`, once")
                                .fix("keep the one that was meant");
                            let ghost dv = d@;
                            self.errors.push(d);
                            proof {
                                assert(self.errors@.take(e as int) =~= before.take(e as int));
                                assert(dv.labels == seq![
                                    (first, before_note@, LabelStyle::Secondary),
                                    (link, after_note@, LabelStyle::Primary),
                                ]);
                                assert(dv == twice_seen(self.source, first, link));
                                let seen2 = visibilities_in(self.source, chain@.subrange(1, i + 1));
                                assert(seen2 == seen.push((visibility, link)));
                                assert forall|j: int| e <= j < self.errors@.len() implies (#[trigger] self.errors@[j])@
                                    == twice_seen(self.source, seen2[0].1, seen2[j - e + 1].1) by {
                                    if j < self.errors@.len() - 1 {
                                        assert(self.errors@[j] == before[j]);
                                    }
                                }
                            }
                        },
                    }
                },
            }
            i = i + 1;
        }
        proof {
            if chain@.len() > 0 {
                assert(chain@.subrange(1, chain@.len() as int) =~= links);
            }
        }
        let ghost before = self.errors@;
        match found {
            Some((visibility, at)) => {
                let missing = match visibility {
                    Visibility::Module => self.at_module.len() == 0,
                    Visibility::Parent => self.at_module.len() < 2,
                    _ => false,
                };
                if missing {
                    let (said, why) = match visibility {
                        Visibility::Module => ("module", "there is no module around this"),
                        _ => ("parent", "there is no module around the one this is in"),
                    };
                    let message = around("`", said, "` says a boundary that is not here.");
                    self.errors.push(
                        Diagnostic::new("E0512", message.as_str())
                            .primary(at, why)
                            .rule("`module`, `parent`, `file`, `program` and `export` are the five, narrowest first, and each names a boundary a name may cross")
                            .tip("`module` wants a module around it, and `parent` wants one around that.")
                            .fix("`file` here"),
                    );
                    proof {
                        assert(self.errors@.take(e as int) =~= before.take(e as int));
                    }
                    return None;
                }
                Some(visibility)
            },
            None => {
                let message = around("this ", what, " does not say who can see it.");
                self.errors.push(
                    Diagnostic::new("E0459", message.as_str())
                        .primary(word, "here")
                        .rule("everything at the top of a file or a module says one of `module`, `parent`, `file`, `program` or `export`, and silence is not one of them")
                        .tip("`file` is the careful answer: nothing outside this file can name it.")
                        .fix("`file` here, `module` for this module alone, `export` for anything outside the program"),
                );
                proof {
                    assert(self.errors@.take(e as int) =~= before.take(e as int));
                }
                None
            },
        }
    }

    /// `const.export.arr.i64 (grow 3) …`: one allocation's type, from the sizes written
    /// for it. Only the first size may say `grow` or `any`; one further in is E0480.
    pub fn one_allocation(&mut self, sizes: &[Size], of: Ty, arr: Span) -> (r: Option<Ty>)
        ensures
            old(self).same_tables(&*final(self)),
            final(self).body == old(self).body,
            final(self).hole == old(self).hole,
            ({
                let rest = sizes_after_length(sizes@);
                if forall|i: int| 0 <= i < rest.len() ==> (#[trigger] rest[i]) is Fixed {
                    &&& r matches Some(t) && t@ == TyView::Arr {
                        of: Box::new(of@),
                        shape: numbers_of(rest),
                        length: length_said(sizes@),
                    }
                    &&& final(self).errors == old(self).errors
                } else {
                    &&& r is None
                    &&& final(self).errors@.len() == old(self).errors@.len() + 1
                    &&& final(self).errors@.drop_last() == old(self).errors@
                    &&& final(self).errors@.last().code@ == "E0480"@
                    &&& exists|b: int|
                        0 <= b < rest.len() && !(rest[b] is Fixed) && (forall|c: int|
                            0 <= c < b ==> (#[trigger] rest[c]) is Fixed)
                            && final(self).errors@.last().message@ == "only the first size of an allocation can say `"@
                            + size_word(#[trigger] rest[b]) + "`."@
                            && final(self).errors@.last()@ == misplaced_size(rest[b], arr)
                }
            }),
    {
        let length = if sizes.len() > 0 {
            match sizes[0] {
                Size::Grows(_) => Length::Grows,
                Size::Unknown(_) => Length::Unknown,
                Size::Fixed(_) => Length::Said,
            }
        } else {
            Length::Said
        };
        let from: usize = if length.known() {
            0
        } else {
            1
        };
        let ghost rest = sizes_after_length(sizes@);
        assert(rest =~= sizes@.skip(from as int));
        match first_word(sizes, from) {
            Some(i) => {
                let bad = sizes[i];
                let word = match bad.word() {
                    Some(w) => w,
                    None => "",
                };
                let at = match bad.at() {
                    Some(a) => a,
                    None => arr,
                };
                let message = around("only the first size of an allocation can say `", word, "`.");
                let fix = around("`", word, "` first, or a number here");
                let d = Diagnostic::new("E0480", message.as_str())
                    .primary(at, "here")
                    .secondary(arr, "this allocation")
                    .rule("finding an element is `(i - 1) x stride + j`, and a stride is the sizes under a dimension — so every size but the outermost has to be known")
                    .tip("`arr.arr.i64 (2 grow)` is two rows that each grow, which is what a growing inner dimension usually means.")
                    .fix(fix.as_str());
                let ghost dv = d@;
                self.errors.push(d);
                proof {
                    assert(dv.labels == seq![(at, "here"@, LabelStyle::Primary), (arr, "this allocation"@, LabelStyle::Secondary)]);
                    assert(self.errors@.last()@ == dv);
                    assert(self.errors@.drop_last() =~= old(self).errors@);
                    let b = i - from;
                    assert(rest[b] == sizes@[i as int]);
                    assert forall|c: int| 0 <= c < b implies (#[trigger] rest[c]) is Fixed by {
                        assert(rest[c] == sizes@[c + from]);
                    }
                    assert(size_word(rest[b]) == word@);
                }
                None
            },
            None => {
                let fixed = numbers(sizes, from);
                proof {
                    assert forall|c: int| 0 <= c < rest.len() implies (#[trigger] rest[c]) is Fixed by {
                        assert(rest[c] == sizes@[c + from]);
                    }
                }
                Some(Ty::Arr { of: Box::new(of), shape: fixed, length })
            },
        }
    }

    /// What reading one type link does: its type, or the hole it names (opening it while
    /// a signature is read), or one error; the tables and the body are left alone.
    pub open spec fn type_linked(&self, after: &Checker<'a>, link: Span, r: Option<Ty>) -> bool {
        &&& self.same_tables(after)
        &&& after.body == self.body
        &&& {
                let w = text_at(self.source, link);
                match simple_view(w) {
                    Some(t) => r matches Some(got) && got@ == t && after.errors == self.errors
                        && after.hole == self.hole,
                    None => match hole_named(w) {
                        Some(asked) => match self.hole {
                            None => if self.opening {
                                r matches Some(got) && got@ == TyView::Hole(asked) && after.hole == Some(asked)
                                    && after.errors == self.errors
                            } else {
                                r is None && after.hole == self.hole && after.errors@.last().code@
                                    == "E0501"@ && after.errors@.drop_last() == self.errors@
                                    && after.errors@.last()@ == pointed(
                                    "E0501"@,
                                    "`"@ + hole_word(asked) + "` is a hole, and there is no function here to fill it."@,
                                    link,
                                    "here"@,
                                    "a hole is opened by a function's signature and filled by whoever calls it"@,
                                    seq!["inside such a function it may be written again, and it means that same hole. Nowhere else can."@],
                                    "name a type"@,
                                )
                            },
                            Some(already) => if already == asked {
                                r matches Some(got) && got@ == TyView::Hole(asked) && after.hole == self.hole
                                    && after.errors == self.errors
                            } else {
                                r is None && after.hole == self.hole && after.errors@.last().code@
                                    == "E0500"@ && after.errors@.drop_last() == self.errors@
                                    && after.errors@.last()@ == pointed(
                                    "E0500"@,
                                    "this function opened `"@ + hole_word(already) + "`, and this says `"@
                                        + hole_word(asked) + "`."@,
                                    link,
                                    "`"@ + hole_word(asked) + "` here"@,
                                    "a function has one hole, and every mention of it says the same word"@,
                                    seq!["`any` and `number` are different holes: one takes every type and forbids `<`, and the other takes the numbers and allows it."@],
                                    "say `"@ + hole_word(already) + "` here too"@,
                                )
                            },
                        },
                        None => {
                            &&& r is None
                            &&& after.hole == self.hole
                            &&& after.errors@.len() == self.errors@.len() + 1
                            &&& after.errors@.drop_last() == self.errors@
                            &&& after.errors@.last().code@ == "E0402"@
                            &&& after.errors@.last().message@ == "`"@ + w + "` is not a type."@
                            &&& after.errors@.last()@ == pointed(
                                "E0402"@,
                                "`"@ + w + "` is not a type."@,
                                link,
                                "here"@,
                                "a chain says the type of what it is describing"@,
                                seq!["the types are the numbers, `e`, `bool` and `str`, and `nothing` where a function gives none back."@],
                                "check the spelling"@,
                            )
                        },
                    },
                }
            }
    }

    /// One type link: a type's name, a hole word (see [`Checker::a_hole`]), or E0402.
    pub fn a_type(&mut self, link: Span) -> (r: Option<Ty>)
        requires
            cuts(old(self).source, link),
        ensures
            old(self).type_linked(&*final(self), link, r),
    {
        let word = self.text(link);
        match Ty::simple(word) {
            Some(ty) => {
                return Some(ty);
            },
            None => {},
        }
        match Hole::from_word(word) {
            Some(asked) => {
                return self.a_hole(asked, link);
            },
            None => {},
        }
        let message = around("`", word, "` is not a type.");
        self.errors.push(
            Diagnostic::new("E0402", message.as_str())
                .primary(link, "here")
                .rule("a chain says the type of what it is describing")
                .tip("the types are the numbers, `e`, `bool` and `str`, and `nothing` where a function gives none back.")
                .fix("check the spelling"),
        );
        proof {
            assert(self.errors@.drop_last() =~= old(self).errors@);
        }
        None
    }

    /// Whether every number a table holds points at something: each constant key at a
    /// constant, each name in scope at a variable.
    pub open spec fn tables_ok(&self) -> bool {
        &&& forall|i: int| 0 <= i < self.known@.len() ==> (#[trigger] self.known@[i]).1 < self.constants@.len()
        &&& forall|d: int, i: int|
            0 <= d < self.scope@.len() && 0 <= i < self.scope@[d]@.len() ==> (#[trigger] self.scope@[d]@[i]).1.0
                < self.locals@.len()
    }

    pub(crate) proof fn lemma_constant_below(&self, name: Seq<char>)
        requires
            self.tables_ok(),
        ensures
            self.reach_view(self.known@, name) matches Some(w) ==> w < self.constants@.len(),
            seen_in(self.scope@, name) matches Some(id) ==> id.0 < self.locals@.len(),
    {
        lemma_outward_below(
            self.known@,
            self.at_file@,
            texts(self.at_module@),
            name,
            self.at_module@.len() as int,
            self.constants@.len() as int,
        );
        lemma_entry_below(self.known@, name, self.constants@.len() as int);
        lemma_seen_below(self.scope@, name, self.locals@.len() as int);
    }

    /// A declared name within one edit of this one, to suggest: a constant's key when
    /// one is close, and otherwise a variable from the innermost scope that has a close
    /// one. Only ever within one edit, because a suggestion that is not the answer costs
    /// the reader a second look.
    pub fn nearest(&self, name: &str) -> (r: Option<String>)
        ensures
            match r {
                Some(n) => {
                    &&& one_edit_apart(n@, name@)
                    &&& near_in(self.known@, name@) ==> key_in(self.known@, n@)
                    &&& !near_in(self.known@, name@) ==> exists|d: int|
                        0 <= d < self.scope@.len() && key_in(#[trigger] self.scope@[d]@, n@) && forall|e: int|
                            d < e < self.scope@.len() ==> !near_in(#[trigger] self.scope@[e]@, name@)
                },
                None => !near_in(self.known@, name@) && forall|d: int|
                    0 <= d < self.scope@.len() ==> !near_in(#[trigger] self.scope@[d]@, name@),
            },
    {
        match near_key(&self.known, name) {
            Some(n) => {
                return Some(n);
            },
            None => {},
        }
        let mut d: usize = self.scope.len();
        while d > 0
            invariant
                d <= self.scope@.len(),
                !near_in(self.known@, name@),
                forall|e: int| d <= e < self.scope@.len() ==> !near_in(#[trigger] self.scope@[e]@, name@),
            decreases d,
        {
            match near_key(&self.scope[d - 1], name) {
                Some(n) => {
                    assert(key_in(self.scope@[d - 1]@, n@));
                    return Some(n);
                },
                None => {},
            }
            d = d - 1;
        }
        None
    }

    /// A name that has to be a variable: one being indexed, counted or changed. A
    /// constant is E0472, because a program does not rewrite what it was written with,
    /// and a name nothing declared is E0413, with a suggestion when a declared name is
    /// one edit away.
    pub fn lookup(&mut self, span: Span) -> (r: Option<LocalId>)
        requires
            reads_as_name(old(self).source, span),
            old(self).tables_ok(),
        ensures
            old(self).only_errors(&*final(self)),
            old(self).same_tables(&*final(self)),
            final(self).body == old(self).body,
            final(self).hole == old(self).hole,
            ({
                let n = name_at(old(self).source, span);
                match old(self).reach_view(old(self).known@, n) {
                    Some(_) => {
                        &&& r is None
                        &&& final(self).errors@.len() == old(self).errors@.len() + 1
                        &&& final(self).errors@.drop_last() == old(self).errors@
                        &&& final(self).errors@.last().code@ == "E0472"@
                        &&& final(self).errors@.last().message@ == "`'"@ + n + "'` is a constant."@
                        &&& final(self).errors@.last()@ == (DiagnosticView {
                            code: "E0472"@,
                            message: "`'"@ + n + "'` is a constant."@,
                            rules: seq![
                                "a constant is what a program was written with, and a program does not rewrite what it was written with"@,
                            ],
                            tips: seq![
                                "an array constant lives in the module and can be read and indexed; what nothing can do is change it."@,
                            ],
                            fixes: seq!["`copy` it into a `var.mut` first, and change that"@],
                            labels: seq![
                                (
                                    old(self).constants@[old(self).reach_view(old(self).known@, n)->0 as int].at,
                                    "declared here"@,
                                    LabelStyle::Secondary,
                                ),
                                (span, "and changed here"@, LabelStyle::Primary),
                            ],
                        })
                    },
                    None => match seen_in(old(self).scope@, n) {
                        Some(id) => r == Some(id) && final(self).errors == old(self).errors,
                        None => {
                            &&& r is None
                            &&& final(self).errors@.len() == old(self).errors@.len() + 1
                            &&& final(self).errors@.drop_last() == old(self).errors@
                            &&& final(self).errors@.last().code@ == "E0413"@
                            &&& final(self).errors@.last().message@ == "`'"@ + n + "'` is not declared."@
                            &&& final(self).errors@.last()@.labels == seq![(span, "here"@, LabelStyle::Primary)]
                            &&& final(self).errors@.last()@.rules == seq![
                                "a name means something only after a declaration says what it means"@,
                            ]
                            &&& final(self).errors@.last()@.tips == Seq::<Seq<char>>::empty()
                            &&& final(self).errors@.last()@.fixes.len() == 1
                            &&& (!near_in(old(self).known@, n) && forall|d: int|
                                0 <= d < old(self).scope@.len() ==> !near_in(#[trigger] old(self).scope@[d]@, n))
                                <==> final(self).errors@.last()@.fixes[0] == "declare it above, with `var`"@
                        },
                    },
                }
            }),
    {
        let name = self.named(span);
        proof {
            self.lemma_constant_below(name@);
        }
        match self.reachable_constant(name.as_str()) {
            Some(which) => {
                let at = self.constants[which as usize].at;
                let message = around("`'", name.as_str(), "'` is a constant.");
                let d = Diagnostic::new("E0472", message.as_str())
                    .secondary(at, "declared here")
                    .primary(span, "and changed here")
                    .rule("a constant is what a program was written with, and a program does not rewrite what it was written with")
                    .tip("an array constant lives in the module and can be read and indexed; what nothing can do is change it.")
                    .fix("`copy` it into a `var.mut` first, and change that");
                let ghost dv = d@;
                self.errors.push(d);
                proof {
                    assert(self.errors@.drop_last() =~= old(self).errors@);
                    assert(dv.labels == seq![
                        (at, "declared here"@, LabelStyle::Secondary),
                        (span, "and changed here"@, LabelStyle::Primary),
                    ]);
                    assert(self.errors@.last()@ == dv);
                }
                return None;
            },
            None => {},
        }
        match self.seen(name.as_str()) {
            Some(local) => Some(local),
            None => {
                let near = self.nearest(name.as_str());
                let message = around("`'", name.as_str(), "'` is not declared.");
                let diag = Diagnostic::new("E0413", message.as_str())
                    .primary(span, "here")
                    .rule("a name means something only after a declaration says what it means");
                let ghost before = diag@;
                let diag = match near {
                    Some(near) => {
                        let fix = around("did you mean `'", near.as_str(), "'`?");
                        proof {
                            reveal_strlit("did you mean `'");
                            reveal_strlit("declare it above, with `var`");
                            assert(fix@[1] != "declare it above, with `var`"@[1]);
                        }
                        diag.fix(fix.as_str())
                    },
                    None => diag.fix("declare it above, with `var`"),
                };
                let ghost dv = diag@;
                self.errors.push(diag);
                proof {
                    assert(self.errors@.drop_last() =~= old(self).errors@);
                    assert(before.labels == seq![(span, "here"@, LabelStyle::Primary)]);
                    assert(self.errors@.last()@ == dv);
                    assert(dv.fixes.len() == 1);
                }
                None
            },
        }
    }

    /// A name used as a value: what a variable holds, or a constant written in. A name
    /// that is neither is looked up as a variable, which says what is wrong with it.
    pub fn named_value(&mut self, span: Span) -> (r: Option<(Value, Ty)>)
        requires
            reads_as_name(old(self).source, span),
            old(self).tables_ok(),
        ensures
            old(self).only_errors(&*final(self)),
            old(self).same_tables(&*final(self)),
            final(self).body == old(self).body,
            final(self).hole == old(self).hole,
            ({
                let n = name_at(old(self).source, span);
                match seen_in(old(self).scope@, n) {
                    Some(id) => {
                        &&& r matches Some((v, t)) && v == Value::Copy(id) && t@ == old(self).locals@[id.0 as int].ty@
                        &&& final(self).errors == old(self).errors
                    },
                    None => match old(self).reach_view(old(self).known@, n) {
                        Some(w) => {
                            &&& r matches Some((v, t)) && v == Value::Const(w) && t@ == old(self).constants@[w as int].ty@
                            &&& final(self).errors == old(self).errors
                        },
                        None => {
                            &&& r is None
                            &&& final(self).errors@.len() == old(self).errors@.len() + 1
                            &&& final(self).errors@.drop_last() == old(self).errors@
                            &&& final(self).errors@.last().code@ == "E0413"@
                        },
                    },
                }
            }),
    {
        let name = self.named(span);
        proof {
            self.lemma_constant_below(name@);
        }
        match self.seen(name.as_str()) {
            Some(local) => {
                return Some((Value::Copy(local), self.locals[local.0 as usize].ty.clone()));
            },
            None => {},
        }
        match self.reachable_constant(name.as_str()) {
            Some(which) => {
                return Some((Value::Const(which), self.constants[which as usize].ty.clone()));
            },
            None => {},
        }
        match self.lookup(span) {
            Some(local) => Some((Value::Copy(local), self.locals[local.0 as usize].ty.clone())),
            None => None,
        }
    }

    /// The names along a path of marked links.
    pub open spec fn path_names(&self, path: Seq<Span>) -> Seq<Seq<char>> {
        path.map_values(|link: Span| name_at(self.source, link))
    }

    /// `'text'.'MARK'`: a constant named through a module path. Nothing of that name is
    /// E0455; a module on the way that may not be named from here is E0513; a constant
    /// that does not reach here is E0511.
    pub fn constant_at(&mut self, path: &[Span]) -> (r: Option<(Value, Ty)>)
        requires
            path@.len() >= 1,
            forall|i: int| 0 <= i < path@.len() ==> reads_as_name(old(self).source, #[trigger] path@[i]),
            old(self).tables_ok(),
        ensures
            old(self).same_tables(&*final(self)),
            final(self).body == old(self).body,
            final(self).hole == old(self).hole,
            ({
                let key = joined(old(self).path_names(path@), "."@);
                match old(self).reach_view(old(self).known@, key) {
                    None => {
                        &&& r is None
                        &&& final(self).errors@.len() == old(self).errors@.len() + 1
                        &&& final(self).errors@.drop_last() == old(self).errors@
                        &&& final(self).errors@.last().code@ == "E0455"@
                        &&& final(self).errors@.last().message@ == "there is nothing called `'"@ + key + "'`."@
                        &&& final(self).errors@.last()@ == pointed(
                            "E0455"@,
                            "there is nothing called `'"@ + key + "'`."@,
                            span_to(path@[0], path@.last()),
                            "here"@,
                            "a path in a value names a constant in a module, and a name is looked for here and then outward"@,
                            seq!["a variable is inside a function, so it has no module to be in, and a function is reached with `call`."@],
                            "check the spelling, or declare it with `const`"@,
                        )
                    },
                    Some(w) => {
                        let c = old(self).constants@[w as int];
                        if !(forall|d: int|
                            1 <= d <= c.in_module@.len() ==> #[trigger] old(self).module_passes(
                                c.in_file@,
                                texts(c.in_module@),
                                d,
                            )) {
                            &&& r is None
                            &&& final(self).errors@.len() == old(self).errors@.len() + 1
                            &&& final(self).errors@.drop_last() == old(self).errors@
                            &&& final(self).errors@.last().code@ == "E0513"@
                            &&& old(self).module_refused(
                                &*final(self),
                                c.in_file@,
                                texts(c.in_module@),
                                span_to(path@[0], path@.last()),
                            )
                        } else if !reaches_view(
                            c.visibility,
                            old(self).at_file@,
                            texts(old(self).at_module@),
                            c.in_file@,
                            texts(c.in_module@),
                        ) {
                            &&& r is None
                            &&& final(self).errors@.len() == old(self).errors@.len() + 1
                            &&& final(self).errors@.drop_last() == old(self).errors@
                            &&& final(self).errors@.last().code@ == "E0511"@
                            &&& final(self).errors@.last().message@ == "`'"@ + key + "'` says `"@ + visibility_word(
                                c.visibility,
                            ) + "`, and this is written in `"@ + old(self).here_view() + "`."@
                            &&& final(self).errors@.last()@ == (DiagnosticView {
                                code: "E0511"@,
                                message: final(self).errors@.last().message@,
                                rules: seq![
                                    "`module`, `parent`, `file`, `program` and `export` are the five, narrowest first, and each names a boundary a name may cross"@,
                                ],
                                tips: seq!["the same ladder a function says, and the same walk outward to find it."@],
                                fixes: seq!["widen what it says, or move this inside"@],
                                labels: seq![
                                    (c.at, "`"@ + visibility_word(c.visibility) + "` here"@, LabelStyle::Secondary),
                                    (span_to(path@[0], path@.last()), "and named here"@, LabelStyle::Primary),
                                ],
                            })
                        } else {
                            &&& r matches Some((v, t)) && v == Value::Const(w) && t@ == c.ty@
                            &&& final(self).errors == old(self).errors
                        }
                    },
                }
            }),
    {
        let mut spelt: Vec<String> = Vec::new();
        let mut i: usize = 0;
        while i < path.len()
            invariant
                i <= path@.len(),
                forall|k: int| 0 <= k < path@.len() ==> reads_as_name(self.source, #[trigger] path@[k]),
                texts(spelt@) == self.path_names(path@).take(i as int),
            decreases path.len() - i,
        {
            let n = self.named(path[i]);
            let ghost before = spelt@;
            let ghost said = n@;
            spelt.push(n);
            proof {
                assert(spelt@ == before.push(n));
                assert(texts(spelt@) =~= texts(before).push(said));
                assert(self.path_names(path@)[i as int] == said);
                assert(self.path_names(path@).take(i + 1) =~= self.path_names(path@).take(i as int).push(said));
            }
            i = i + 1;
        }
        assert(self.path_names(path@).take(i as int) =~= self.path_names(path@));
        let key = dot_joined(spelt.as_slice(), spelt.len());
        assert(texts(spelt@).take(spelt@.len() as int) =~= texts(spelt@));
        let whole = path[0].to(path[path.len() - 1]);
        proof {
            self.lemma_constant_below(key@);
        }
        let which = match self.reachable_constant(key.as_str()) {
            Some(which) => which,
            None => {
                let message = around("there is nothing called `'", key.as_str(), "'`.");
                self.errors.push(
                    Diagnostic::new("E0455", message.as_str())
                        .primary(whole, "here")
                        .rule("a path in a value names a constant in a module, and a name is looked for here and then outward")
                        .tip("a variable is inside a function, so it has no module to be in, and a function is reached with `call`.")
                        .fix("check the spelling, or declare it with `const`"),
                );
                proof {
                    assert(self.errors@.drop_last() =~= old(self).errors@);
                }
                return None;
            },
        };
        let held = copy_names(&self.constants[which as usize].in_module);
        let held_file = self.constants[which as usize].in_file.clone();
        let ghost c = self.constants@[which as int];
        assert(held@.len() == texts(held@).len() == texts(c.in_module@).len() == c.in_module@.len());
        if !self.modules_reach(held_file.as_str(), held.as_slice(), whole) {
            return None;
        }
        let constant = &self.constants[which as usize];
        if !constant.visibility.reaches(
            (self.at_file.as_str(), self.at_module.as_slice()),
            (constant.in_file.as_str(), constant.in_module.as_slice()),
        ) {
            let said = constant.visibility.word();
            let at = constant.at;
            let here = self.here();
            let mut message = String::from_str("`'");
            message.append(key.as_str());
            message.append("'` says `");
            message.append(said);
            message.append("`, and this is written in `");
            message.append(here.as_str());
            message.append("`.");
            let note = around("`", said, "` here");
            let d = Diagnostic::new("E0511", message.as_str())
                .secondary(at, note.as_str())
                .primary(whole, "and named here")
                .rule("`module`, `parent`, `file`, `program` and `export` are the five, narrowest first, and each names a boundary a name may cross")
                .tip("the same ladder a function says, and the same walk outward to find it.")
                .fix("widen what it says, or move this inside");
            let ghost dv = d@;
            self.errors.push(d);
            proof {
                assert(self.errors@.drop_last() =~= old(self).errors@);
                assert(dv.labels == seq![(at, note@, LabelStyle::Secondary), (whole, "and named here"@, LabelStyle::Primary)]);
                assert(self.errors@.last()@ == dv);
            }
            return None;
        }
        Some((Value::Const(which), constant.ty.clone()))
    }

    /// Report one of the rules an operator breaks, pointing at `span`.
    fn complain(
        &mut self,
        code: &str,
        message: String,
        span: Span,
        note: String,
        rule: &str,
        tip: Option<&str>,
        fix: &str,
    )
        ensures
            old(self).same_tables(&*final(self)),
            final(self).body == old(self).body,
            final(self).hole == old(self).hole,
            said(final(self).errors@) == said(old(self).errors@).push(
                pointed(
                    code@,
                    message@,
                    span,
                    note@,
                    rule@,
                    match tip {
                        Some(t) => seq![t@],
                        None => Seq::empty(),
                    },
                    fix@,
                ),
            ),
    {
        let d = Diagnostic::new(code, message.as_str()).primary(span, note.as_str()).rule(rule);
        let d = match tip {
            Some(t) => d.tip(t),
            None => d,
        };
        let d = d.fix(fix);
        proof {
            assert(d.labels@ =~= seq![d.labels@[0]]);
            assert(label_views(d.labels@) =~= seq![(span, note@, LabelStyle::Primary)]);
            assert(texts(d.rules@) =~= seq![rule@]);
            assert(texts(d.fixes@) =~= seq![fix@]);
            match tip {
                Some(t) => assert(texts(d.tips@) =~= seq![t@]),
                None => assert(texts(d.tips@) =~= Seq::<Seq<char>>::empty()),
            }
        }
        self.errors.push(d);
        proof {
            assert(said(self.errors@) =~= said(old(self).errors@).push(d@));
        }
    }

    /// Two operators side by side that mathematics gave no order: E0421, naming the one
    /// written first, then the other.
    pub fn ambiguous(&mut self, whole: Span, first: (OpKind, Span), second: (OpKind, Span))
        ensures
            old(self).same_tables(&*final(self)),
            final(self).body == old(self).body,
            final(self).hole == old(self).hole,
            ({
                let (a, b) = if first.1.start <= second.1.start {
                    (first, second)
                } else {
                    (second, first)
                };
                said(final(self).errors@) == said(old(self).errors@).push(
                    DiagnosticView {
                        code: "E0421"@,
                        message: "`"@ + op_word(a.0) + "` and `"@ + op_word(b.0)
                            + "` have no agreed order, so this could be read two ways."@,
                        rules: seq!["Quench keeps the precedence mathematics settled and invents none of its own"@],
                        tips: seq!["`x`, `/`, `+`, `-` and comparison need no brackets. Everything else does."@],
                        fixes: seq!["put brackets round whichever should happen first"@],
                        labels: seq![
                            (whole, "which of these first?"@, LabelStyle::Primary),
                            (a.1, "this one"@, LabelStyle::Secondary),
                            (b.1, "or this one"@, LabelStyle::Secondary),
                        ],
                    },
                )
            }),
    {
        let (a, b) = if first.1.start <= second.1.start {
            (first, second)
        } else {
            (second, first)
        };
        let mut message = String::from_str("`");
        message.append(a.0.written());
        message.append("` and `");
        message.append(b.0.written());
        message.append("` have no agreed order, so this could be read two ways.");
        let d = Diagnostic::new("E0421", message.as_str())
            .primary(whole, "which of these first?")
            .secondary(a.1, "this one")
            .secondary(b.1, "or this one")
            .rule("Quench keeps the precedence mathematics settled and invents none of its own")
            .tip("`x`, `/`, `+`, `-` and comparison need no brackets. Everything else does.")
            .fix("put brackets round whichever should happen first");
        let ghost dv = d@;
        self.errors.push(d);
        proof {
            assert(dv.labels == seq![
                (whole, "which of these first?"@, LabelStyle::Primary),
                (a.1, "this one"@, LabelStyle::Secondary),
                (b.1, "or this one"@, LabelStyle::Secondary),
            ]);
            assert(said(self.errors@) =~= said(old(self).errors@).push(dv));
        }
    }

    /// What type a checked value has, and every rule an operator in it breaks on the way,
    /// each reported where it is found.
    #[verifier::rlimit(40)]
    pub fn type_of(&mut self, value: &Value, span: Span) -> (r: Option<Ty>)
        requires
            refs_ok(old(self).locals@, old(self).constants@, old(self).signatures@, *value),
        ensures
            old(self).same_tables(&*final(self)),
            final(self).body == old(self).body,
            final(self).hole == old(self).hole,
            match (r, typed(old(self).locals@, old(self).constants@, old(self).signatures@, *value)) {
                (Some(t), Some(v)) => t@ == v,
                (None, None) => true,
                _ => false,
            },
            said(final(self).errors@) == said(old(self).errors@) + complaints(old(self).locals@, old(self).constants@, old(self).signatures@, *value, span),
        decreases value,
    {
        let ghost e0 = said(self.errors@);
        proof {
            assert(e0 + Seq::<DiagnosticView>::empty() =~= e0);
        }
        match value {
            Value::Text(_) => Some(Ty::Str),
            Value::Number { bits, signed, .. } => Some(Ty::Int { bits: *bits, signed: *signed }),
            Value::Exact(_) => Some(Ty::Exact),
            Value::Decimal { digits, .. } => Some(Ty::Decimal { digits: *digits }),
            Value::Float { width, .. } => Some(
                if *width == 16 {
                    Ty::F16
                } else if *width == 32 {
                    Ty::F32
                } else {
                    Ty::F64
                },
            ),
            Value::Bool(_) => Some(Ty::Bool),
            Value::Copy(local) => Some(self.locals[local.0 as usize].ty.clone()),
            Value::Array { .. } => None,
            Value::Join(_) => Some(Ty::Str),
            Value::Said { .. } => Some(Ty::Str),
            Value::Slowly { .. } => Some(Ty::F64),
            Value::Maths { width, .. } => Some(
                if *width == 16 {
                    Ty::F16
                } else if *width == 32 {
                    Ty::F32
                } else {
                    Ty::F64
                },
            ),
            Value::Not(_) => Some(Ty::Bool),
            Value::Count(_) => Some(Ty::Int { bits: 64, signed: true }),
            Value::CountText(_) => Some(Ty::Int { bits: 64, signed: true }),
            Value::Pieces { which, .. } => Some(
                if *which == 0 || *which == 4 {
                    Ty::Str
                } else if *which == 1 {
                    Ty::Bool
                } else if *which == 2 {
                    Ty::Int { bits: 64, signed: true }
                } else {
                    texts_grown()
                },
            ),
            Value::Given { which } => Some(
                if *which == 0 || *which == 1 {
                    Ty::Str
                } else if *which == 2 {
                    Ty::Bool
                } else {
                    texts_grown()
                },
            ),
            Value::CanRead { .. } => Some(Ty::Bool),
            Value::Read { ty, .. } => Some(ty.clone()),
            Value::Copied(of) => self.type_of(of, span),
            Value::Const(which) => Some(self.constants[*which as usize].ty.clone()),
            Value::Call { func, fill, .. } => {
                let answer = match &self.signatures[*func as usize].returns {
                    Some(t) => t.clone(),
                    None => {
                        return None;
                    },
                };
                Some(
                    match fill {
                        Some(f) => filled(&answer, f),
                        None => answer,
                    },
                )
            },
            Value::At { array, .. } => match self.type_of(array, span) {
                None => None,
                Some(Ty::Arr { of, .. }) => Some(*of),
                Some(other) => Some(other),
            },
            Value::Binary { op, lhs, rhs } => {
                let l = match self.type_of(lhs, span) {
                    Some(t) => t,
                    None => {
                        return None;
                    },
                };
                let ghost e1 = said(self.errors@);
                let r = match self.type_of(rhs, span) {
                    Some(t) => t,
                    None => {
                        proof {
                            assert(said(self.errors@) =~= e0 + complaints(old(self).locals@, old(self).constants@, old(self).signatures@, *value, span));
                        }
                        return None;
                    },
                };
                let ghost e2 = said(self.errors@);
                let op = *op;
                let w = op.written();
                let ghost lv = l@;
                let ghost rv = r@;
                let ghost before = e0 + complaints(old(self).locals@, old(self).constants@, old(self).signatures@, **lhs, span)
                    + complaints(old(self).locals@, old(self).constants@, old(self).signatures@, **rhs, span);
                assert(e2 =~= before);
                let is_bool_l = matches!(l, Ty::Bool);
                let is_bool_r = matches!(r, Ty::Bool);
                let outcome: Option<Ty> = if op == OpKind::And || op == OpKind::Or {
                    if !is_bool_l || !is_bool_r {
                        let message = around("`", w, "` joins two things that are true or false.");
                        let note = both_named(&l, &r);
                        self.complain(
                            "E0422",
                            message,
                            span,
                            note,
                            "nothing is truthy — `and` and `or` are for `bool`, and there is no second way to be one",
                        Some("a comparison makes one, and so does a `bool` variable."),
                        "compare each side against something",
                    );
                        None
                    } else {
                        Some(Ty::Bool)
                    }
                } else if op == OpKind::Eq || op == OpKind::Ne {
                    if l.same(&r) {
                        Some(Ty::Bool)
                    } else {
                        let message = around("`", w, "` compares two of the same thing.");
                        let note = both_named(&l, &r);
                        self.complain(
                            "E0441",
                            message,
                            span,
                            note,
                            "nothing converts on its own, so two types are never equal — the question does not arise",
                        None,
                        "compare two things of the same type",
                    );
                        None
                    }
                } else if l.same(&r) && matches!(l, Ty::Hole(Hole::Any)) {
                    let message = around("`", w, "` works on numbers, and `any` is not known to be one.");
                    self.complain(
                        "E0502",
                        message,
                        span,
                        String::from_str("here"),
                        "a hole written `any` may be filled with a `str`, a `bool` or an array, and none of those orders or adds",
                        Some("`==` does work on an `any`, because every type answers that one."),
                        "say `number` instead of `any`, and the caller may only bring a number",
                    );
                    None
                } else if !l.same(&r) || !matches!(
                    l,
                    Ty::Int { .. } | Ty::Exact | Ty::F64 | Ty::F32 | Ty::F16 | Ty::Decimal { .. } | Ty::Hole(
                        Hole::Number,
                    )
                ) {
                    let message = around("`", w, "` works on numbers.");
                    let note = both_named(&l, &r);
                    self.complain(
                        "E0420",
                        message,
                        span,
                        note,
                        "arithmetic and ordering are for numbers, and nothing converts on its own",
                        Some("an `i64` and an `e` are both numbers and are not the same number, so neither becomes the other."),
                        "use the same kind of number on both sides",
                    );
                    None
                } else if matches!(l, Ty::Hole(Hole::Number)) && (op == OpKind::Mod || op == OpKind::Pow) {
                    let message = around("`", w, "` does not work on every number, and `number` is every number.");
                    self.complain(
                        "E0503",
                        message,
                        span,
                        String::from_str("here"),
                        "a hole has what all the types filling it have, and this one is refused on some of them",
                        Some(if op == OpKind::Mod {
                            "`mod` asks what a division left over, and a float, a decimal and an `e` leave nothing."
                        } else {
                            "`^` is worked out rather than asked of a library, and that is built for `b64` alone."
                        }),
                        "say the type you meant, rather than a hole",
                    );
                    None
                } else if matches!(l, Ty::F32 | Ty::F16) && op == OpKind::Pow {
                    let message = around("`^` on a `", l.name().as_str(), "` is not built yet.");
                    self.complain(
                        "E0495",
                        message,
                        span,
                        String::from_str("here"),
                        "IEEE 754 only recommends how a power rounds, so Quench works it out itself rather than asking a library — and it does that at one width",
                        Some("working it out for a `b64` and rounding that down would round twice, which is once too many."),
                        "use a `b64`",
                    );
                    None
                } else if matches!(l, Ty::F64 | Ty::F32 | Ty::F16 | Ty::Decimal { .. }) && op == OpKind::Mod {
                    let message = around(
                        "`mod` asks what a division left over, and a `",
                        l.name().as_str(),
                        "` division leaves nothing.",
                    );
                    self.complain(
                        "E0488",
                        message,
                        span,
                        String::from_str("here"),
                        "a float division answers with the nearest float there is, so nothing is left behind to ask about",
                        Some("`call remainder['a', 'b']` is the question IEEE 754 defines for floats, and its answer is exact."),
                        "`call remainder[…]`, or use `i64` for whole-number division",
                    );
                    None
                } else if matches!(l, Ty::Decimal { .. }) && op == OpKind::Pow {
                    let message = around("`^` on a `", l.name().as_str(), "` is not built yet.");
                    self.complain(
                        "E0495",
                        message,
                        span,
                        String::from_str("here"),
                        "a decimal power is its own specification, and this has the binary one",
                        None,
                        "use a `b64`, or `x` a few times",
                    );
                    None
                } else if matches!(l, Ty::Exact) && op == OpKind::Mod {
                    self.complain(
                        "E0476",
                        String::from_str("`mod` asks what a division left over, and an `e` division leaves nothing."),
                        span,
                        String::from_str("here"),
                        "an `e` divided by an `e` is an `e`, exactly, so there is no remainder to ask about",
                        Some("`mod` is for the number types that round, which is every one of them but this."),
                        "use `i64` if you want whole-number division",
                    );
                    None
                } else if is_comparison(op) {
                    Some(Ty::Bool)
                } else {
                    Some(l)
                };
                proof {
                    let c = binary_diagnostic(op, lv, rv, span);
                    let tail = match c {
                        Some(x) => seq![x],
                        None => Seq::<DiagnosticView>::empty(),
                    };
                    assert(said(self.errors@) =~= before + tail);
                    assert(match (outcome, binary_type(op, lv, rv)) {
                        (Some(t), Some(v)) => t@ == v,
                        (None, None) => true,
                        _ => false,
                    });
                }
                outcome
            },
        }
    }

    /// What reading the `b`th size of a shape reports when it is no size: E0428 for
    /// nought, E0429 for anything else.
    pub open spec fn size_refusal(&self, shape: Seq<Span>, b: int) -> DiagnosticView {
        let w = text_at(self.source, shape[b]);
        if usize_read(w) == Some(0nat) {
            pointed(
                "E0428"@,
                "an array of nothing holds nothing."@,
                shape[b],
                "here"@,
                "every size in a shape is at least one"@,
                Seq::empty(),
                "give it a size, or do not declare it"@,
            )
        } else {
            pointed(
                "E0429"@,
                "`"@ + w + "` is not a size."@,
                shape[b],
                "here"@,
                "a size is a whole number written without marks, or `grow` where there is no number yet, or `any` where the number was never said"@,
                Seq::empty(),
                "write a whole number, `grow`, or `any`"@,
            )
        }
    }

    /// What reading a shape reports when it gives no sizes: E0426 for no shape at all,
    /// pointing at the first `arr`, E0427 for an empty one, and otherwise the first size
    /// that is no size.
    pub open spec fn shape_refused(&self, shape: Seq<Span>, shape_span: Option<Span>, arr: Span, d: DiagnosticView) -> bool {
        if shape_span is None {
            d == pointed(
                "E0426"@,
                "this array does not say how big it is."@,
                arr,
                "here"@,
                "an array says its size in brackets after the chain, because the size is part of the type"@,
                seq!["`grow` is a size too: it says there is no number yet, which is different from not saying."@],
                "`arr.i64 (5)`, or `arr.i64 (grow)` if it is to be filled afterwards"@,
            )
        } else if shape.len() == 0 {
            d == pointed(
                "E0427"@,
                "this shape is empty."@,
                shape_span->0,
                "here"@,
                "a shape is one size for each dimension, and there is always at least one"@,
                Seq::empty(),
                "`(5)`, or whichever size was meant"@,
            )
        } else {
            exists|b: int|
                0 <= b < shape.len() && (#[trigger] size_at(self.source, shape, b)) is None && (forall|c: int|
                    0 <= c < b ==> (#[trigger] size_at(self.source, shape, c)) is Some) && d == self.size_refusal(
                    shape,
                    b,
                )
        }
    }

    /// The sizes a shape says, one per size written: `grow`, `any`, or a whole number
    /// above nought. No shape is E0426, an empty one E0427, a nought E0428, and anything
    /// else E0429.
    pub fn sizes(&mut self, shape: &[Span], shape_span: Option<Span>, arr: Span) -> (r: Option<Vec<Size>>)
        requires
            forall|i: int| 0 <= i < shape@.len() ==> cuts(old(self).source, #[trigger] shape@[i]),
        ensures
            old(self).same_tables(&*final(self)),
            final(self).body == old(self).body,
            final(self).hole == old(self).hole,
            ({
                if shape_span is None {
                    &&& r is None
                    &&& final(self).errors@.len() == old(self).errors@.len() + 1
                    &&& final(self).errors@.drop_last() == old(self).errors@
                    &&& final(self).errors@.last().code@ == "E0426"@
                } else if shape@.len() == 0 {
                    &&& r is None
                    &&& final(self).errors@.len() == old(self).errors@.len() + 1
                    &&& final(self).errors@.drop_last() == old(self).errors@
                    &&& final(self).errors@.last().code@ == "E0427"@
                } else if forall|i: int| 0 <= i < shape@.len() ==> (#[trigger] size_at(old(self).source, shape@, i)) is Some {
                    &&& r matches Some(v) && v@.len() == shape@.len() && forall|i: int|
                        0 <= i < shape@.len() ==> Some(#[trigger] v@[i]) == size_at(old(self).source, shape@, i)
                    &&& final(self).errors == old(self).errors
                } else {
                    &&& r is None
                    &&& final(self).errors@.len() == old(self).errors@.len() + 1
                    &&& final(self).errors@.drop_last() == old(self).errors@
                    &&& exists|b: int|
                        0 <= b < shape@.len() && (#[trigger] size_at(old(self).source, shape@, b)) is None && (forall|c: int|
                            0 <= c < b ==> (#[trigger] size_at(old(self).source, shape@, c)) is Some) && final(self).errors@.last().code@ == if usize_read(
                            text_at(old(self).source, shape@[b]),
                        ) == Some(0nat) {
                            "E0428"@
                        } else {
                            "E0429"@
                        }
                }
            }),
            r is None ==> old(self).shape_refused(shape@, shape_span, arr, final(self).errors@.last()@),
    {
        let span = match shape_span {
            Some(span) => span,
            None => {
                self.errors.push(
                    Diagnostic::new("E0426", "this array does not say how big it is.")
                        .primary(arr, "here")
                        .rule("an array says its size in brackets after the chain, because the size is part of the type")
                        .tip("`grow` is a size too: it says there is no number yet, which is different from not saying.")
                        .fix("`arr.i64 (5)`, or `arr.i64 (grow)` if it is to be filled afterwards"),
                );
                proof {
                    assert(self.errors@.drop_last() =~= old(self).errors@);
                }
                return None;
            },
        };
        if shape.len() == 0 {
            self.errors.push(
                Diagnostic::new("E0427", "this shape is empty.")
                    .primary(span, "here")
                    .rule("a shape is one size for each dimension, and there is always at least one")
                    .fix("`(5)`, or whichever size was meant"),
            );
            proof {
                assert(self.errors@.drop_last() =~= old(self).errors@);
            }
            return None;
        }
        let mut sizes: Vec<Size> = Vec::new();
        let mut i: usize = 0;
        while i < shape.len()
            invariant
                i <= shape@.len(),
                forall|k: int| 0 <= k < shape@.len() ==> cuts(self.source, #[trigger] shape@[k]),
                sizes@.len() == i,
                forall|k: int| 0 <= k < i ==> Some(#[trigger] sizes@[k]) == size_at(self.source, shape@, k),
                self.errors == old(self).errors,
                old(self).same_tables(&*self),
                self.body == old(self).body,
                self.hole == old(self).hole,
                shape_span is Some,
                shape@.len() > 0,
            decreases shape.len() - i,
        {
            let size = shape[i];
            let word = self.text(size);
            if same_str(word, "grow") {
                sizes.push(Size::Grows(size));
            } else if same_str(word, "any") {
                sizes.push(Size::Unknown(size));
            } else {
                proof {
                    reveal_strlit("grow");
                    reveal_strlit("any");
                }
                match read_usize(word) {
                    Some(n) => {
                        if n == 0 {
                            self.errors.push(
                                Diagnostic::new("E0428", "an array of nothing holds nothing.")
                                    .primary(size, "here")
                                    .rule("every size in a shape is at least one")
                                    .fix("give it a size, or do not declare it"),
                            );
                            proof {
                                assert(self.errors@.drop_last() =~= old(self).errors@);
                                assert(size_at(old(self).source, shape@, i as int) is None);
                                assert forall|c: int| 0 <= c < i implies (#[trigger] size_at(old(self).source, shape@, c)) is Some by {
                                    assert(Some(sizes@[c]) == size_at(self.source, shape@, c));
                                }
                            }
                            return None;
                        }
                        sizes.push(Size::Fixed(n));
                    },
                    None => {
                        let message = around("`", word, "` is not a size.");
                        self.errors.push(
                            Diagnostic::new("E0429", message.as_str())
                                .primary(size, "here")
                                .rule("a size is a whole number written without marks, or `grow` where there is no number yet, or `any` where the number was never said")
                                .fix("write a whole number, `grow`, or `any`"),
                        );
                        proof {
                            assert(self.errors@.drop_last() =~= old(self).errors@);
                            assert(size_at(old(self).source, shape@, i as int) is None);
                                assert forall|c: int| 0 <= c < i implies (#[trigger] size_at(old(self).source, shape@, c)) is Some by {
                                    assert(Some(sizes@[c]) == size_at(self.source, shape@, c));
                                }
                        }
                        return None;
                    },
                }
            }
            i = i + 1;
        }
        assert forall|k: int| 0 <= k < shape@.len() implies (#[trigger] size_at(old(self).source, shape@, k)) is Some by {
            assert(Some(sizes@[k]) == size_at(self.source, shape@, k));
        }
        Some(sizes)
    }

    /// What reading an array's chain and shape does, for an element read before it: see
    /// [`Checker::arrayed`]. The tables, the body and the hole are left alone.
    pub open spec fn arrayed_to(
        &self,
        after: &Checker<'a>,
        element: Option<Ty>,
        arrays: Seq<Span>,
        shape: Seq<Span>,
        shape_span: Option<Span>,
        r: Option<Ty>,
    ) -> bool {
        &&& self.same_tables(after)
        &&& after.body == self.body
        &&& after.hole == self.hole
        &&& (arrays.len() == 0 ==> if shape_span is Some {
            &&& r is None
            &&& after.errors@.len() == self.errors@.len() + 1
            &&& after.errors@.drop_last() == self.errors@
            &&& after.errors@.last().code@ == "E0425"@
            &&& after.errors@.last().message@ == "only an array has a shape."@
            &&& after.errors@.last()@ == pointed(
                "E0425"@,
                "only an array has a shape."@,
                shape_span->0,
                "here"@,
                "a shape says how many elements an array holds, and this is no array"@,
                Seq::empty(),
                "add `arr` to the chain, or remove the shape"@,
            )
        } else {
            &&& match (r, element) {
                (Some(a), Some(b)) => a@ == b@,
                (None, None) => true,
                _ => false,
            }
            &&& after.errors == self.errors
        })
        &&& (arrays.len() > 0 && element is None ==> r is None && after.errors == self.errors)
        &&& (arrays.len() > 0 && element is Some ==> match shape_read(self.source, shape, shape_span) {
            None => {
                &&& r is None
                &&& after.errors@.len() == self.errors@.len() + 1
                &&& after.errors@.drop_last() == self.errors@
                &&& self.shape_refused(shape, shape_span, arrays[0], after.errors@.last()@)
            },
            Some(sizes) => if sizes.len() < arrays.len() {
                &&& r is None
                &&& after.errors@.len() == self.errors@.len() + 1
                &&& after.errors@.drop_last() == self.errors@
                &&& after.errors@.last().code@ == "E0423"@
                &&& after.errors@.last().message@ == "this says `arr` "@ + counted_view(
                    arrays.len() as nat,
                    "time"@,
                ) + " and gives "@ + counted_view(sizes.len(), "size"@) + "."@
                &&& after.errors@.last()@ == (DiagnosticView {
                    code: "E0423"@,
                    message: after.errors@.last().message@,
                    rules: seq!["every `arr` link is one allocation, and every allocation says how big it is"@],
                    tips: seq![
                        "the innermost takes whatever sizes are left over, which is what makes `arr.i64 (2 3)` a rectangle."@,
                    ],
                    fixes: seq!["give at least "@ + counted_view(arrays.len() as nat, "size"@)],
                    labels: seq![
                        (shape_span->0, counted_view(sizes.len(), "size"@) + " here"@, LabelStyle::Primary),
                        (
                            span_to(arrays[0], arrays.last()),
                            "`arr` "@ + counted_view(arrays.len() as nat, "time"@),
                            LabelStyle::Secondary,
                        ),
                    ],
                })
            } else {
                let inner = sizes.skip(arrays.len() - 1);
                if all_numbers_after_length(inner) {
                    &&& r matches Some(t) && t@ == wrapped_out(
                        sizes,
                        arrays.len() - 1,
                        allocated(inner, element->0@),
                    )
                    &&& after.errors == self.errors
                } else {
                    &&& r is None
                    &&& after.errors@.len() == self.errors@.len() + 1
                    &&& after.errors@.drop_last() == self.errors@
                    &&& after.errors@.last().code@ == "E0480"@
                    &&& exists|b: int|
                        0 <= b < sizes_after_length(inner).len() && !(sizes_after_length(inner)[b] is Fixed) && (forall|c: int|
                            0 <= c < b ==> (#[trigger] sizes_after_length(inner)[c]) is Fixed) && after.errors@.last()@
                            == misplaced_size(#[trigger] sizes_after_length(inner)[b], arrays[0])
                }
            },
        })
    }

    /// An array's type from its chain and its shape: one allocation per `arr` link, the
    /// innermost taking whatever sizes the others did not claim. A shape with no `arr` is
    /// E0425; fewer sizes than links is E0423; what `sizes` and `one_allocation` refuse,
    /// they report.
    pub fn arrayed(
        &mut self,
        element: Option<Ty>,
        element_span: Span,
        arrays: &[Span],
        shape: &[Span],
        shape_span: Option<Span>,
    ) -> (r: Option<Ty>)
        requires
            forall|i: int| 0 <= i < shape@.len() ==> cuts(old(self).source, #[trigger] shape@[i]),
        ensures
            old(self).arrayed_to(&*final(self), element, arrays@, shape@, shape_span, r),
    {
        if arrays.len() == 0 {
            match shape_span {
                Some(span) => {
                    self.errors.push(
                        Diagnostic::new("E0425", "only an array has a shape.")
                            .primary(span, "here")
                            .rule("a shape says how many elements an array holds, and this is no array")
                            .fix("add `arr` to the chain, or remove the shape"),
                    );
                    proof {
                        assert(self.errors@.drop_last() =~= old(self).errors@);
                    }
                    return None;
                },
                None => {
                    return element;
                },
            }
        }
        let element = match element {
            Some(e) => e,
            None => {
                return None;
            },
        };
        let sizes = match self.sizes(shape, shape_span, arrays[0]) {
            Some(v) => v,
            None => {
                proof {
                    if shape_read(old(self).source, shape@, shape_span) is Some {
                        assert(shape_span is Some && shape@.len() > 0);
                        let b = choose|b: int|
                            0 <= b < shape@.len() && (#[trigger] size_at(old(self).source, shape@, b)) is None;
                        assert(size_at(old(self).source, shape@, b) is None);
                    }
                }
                return None;
            },
        };
        proof {
            assert(shape_span is Some && shape@.len() > 0);
            assert(!(exists|i: int| 0 <= i < shape@.len() && (#[trigger] size_at(old(self).source, shape@, i)) is None));
            assert(shape_read(old(self).source, shape@, shape_span) == Some(sizes@)) by {
                assert(sizes@ =~= Seq::new(shape@.len(), |i: int| size_at(old(self).source, shape@, i)->0));
            }
        }
        if sizes.len() < arrays.len() {
            let times = counted(arrays.len(), "time");
            let given = counted(sizes.len(), "size");
            let mut message = String::from_str("this says `arr` ");
            message.append(times.as_str());
            message.append(" and gives ");
            message.append(given.as_str());
            message.append(".");
            let here = around("", given.as_str(), " here");
            let arr_note = around("`arr` ", times.as_str(), "");
            let least = counted(arrays.len(), "size");
            let fix = around("give at least ", least.as_str(), "");
            let at = match shape_span {
                Some(span) => span,
                None => element_span,
            };
            let whole = arrays[0].to(arrays[arrays.len() - 1]);
            let d = Diagnostic::new("E0423", message.as_str())
                .primary(at, here.as_str())
                .secondary(whole, arr_note.as_str())
                .rule("every `arr` link is one allocation, and every allocation says how big it is")
                .tip("the innermost takes whatever sizes are left over, which is what makes `arr.i64 (2 3)` a rectangle.")
                .fix(fix.as_str());
            let ghost dv = d@;
            self.errors.push(d);
            proof {
                assert(self.errors@.drop_last() =~= old(self).errors@);
                assert(whole == span_to(arrays@[0], arrays@.last()));
                reveal_strlit("");
                assert(here@ =~= given@ + " here"@);
                assert(arr_note@ =~= "`arr` "@ + times@);
                assert(fix@ =~= "give at least "@ + least@);
                assert(dv.labels == seq![
                    (at, here@, LabelStyle::Primary),
                    (whole, arr_note@, LabelStyle::Secondary),
                ]);
                assert(self.errors@.last()@ == dv);
            }
            return None;
        }
        let inner = tail_of(&sizes, arrays.len() - 1);
        let ghost element_view = element@;
        let mut ty = match self.one_allocation(inner.as_slice(), element, arrays[0]) {
            Some(t) => t,
            None => {
                return None;
            },
        };
        let mut n: usize = arrays.len() - 1;
        while n > 0
            invariant
                n < arrays@.len(),
                arrays@.len() <= sizes@.len(),
                wrapped_out(sizes@, n as int, ty@) == wrapped_out(
                    sizes@,
                    arrays@.len() - 1,
                    allocated(sizes@.skip(arrays@.len() - 1), element_view),
                ),
                old(self).same_tables(&*self),
                self.body == old(self).body,
                self.hole == old(self).hole,
                self.errors == old(self).errors,
            decreases n,
        {
            n = n - 1;
            let one = [sizes[n]];
            proof {
                assert(one@ =~= seq![sizes@[n as int]]);
                assert(sizes_after_length(one@) =~= Seq::<Size>::empty() || sizes_after_length(one@) =~= one@);
            }
            ty = match self.one_allocation(&one, ty, arrays[n]) {
                Some(t) => t,
                None => {
                    return None;
                },
            };
        }
        Some(ty)
    }

    /// A name with its marks taken off.
    pub fn named(&self, span: Span) -> (s: String)
        requires
            reads_as_name(self.source, span),
        ensures
            s@ == name_at(self.source, span),
    {
        let raw = self.text(span);
        unmarked(raw)
    }
}


proof fn lemma_no_dotted_entry(pairs: Seq<(String, u32)>, name: Seq<char>)
    requires
        !name.contains('.'),
        forall|i: int| 0 <= i < pairs.len() ==> (#[trigger] pairs[i]).0@.contains('.'),
    ensures
        entry_of(pairs, name) is None,
    decreases pairs.len(),
{
    if pairs.len() > 0 {
        assert(pairs[0].0@.contains('.'));
        let rest = pairs.drop_first();
        assert forall|i: int| 0 <= i < rest.len() implies (#[trigger] rest[i]).0@.contains('.') by {
            assert(rest[i] == pairs[i + 1]);
        }
        lemma_no_dotted_entry(rest, name);
    }
}

impl<'a> Checker<'a> {
    /// A bare name never quietly finds another file's function or constant: where every
    /// key holds a dot, as every key of a file, its modules and a name does, a name with
    /// no dot in it finds only what walking outward through this file finds.
    pub proof fn law_a_bare_name_stays_in_its_file(&self, pairs: Seq<(String, u32)>, name: Seq<char>)
        requires
            !name.contains('.'),
            forall|i: int| 0 <= i < pairs.len() ==> (#[trigger] pairs[i]).0@.contains('.'),
        ensures
            self.reach_view(pairs, name) == found_outward(
                pairs,
                self.at_file@,
                texts(self.at_module@),
                name,
                self.at_module@.len() as int,
            ),
    {
        lemma_no_dotted_entry(pairs, name);
    }
}

} // verus!
