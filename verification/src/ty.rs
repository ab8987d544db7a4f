//! The types a Quench program means, and who can name what.
//!
//! Quench's type list is longer than this. These are the ones that exist all the way
//! down, from the checker to every engine that runs a program; anything else is read,
//! understood, and then honestly refused as not built.

use vstd::prelude::*;
use crate::source::Span;
use crate::text::{decimal, push_decimal, same_str};

verus! {

broadcast use vstd::string::group_string_axioms;

/// What a function left open for the caller to fill.
///
/// Not a name, because it does not name anything: a hole is a place a type goes, and the
/// caller's argument is what decides which. There is exactly one per function, so every
/// `any` in a signature is the *same* `any`.
#[derive(Clone, Copy, PartialEq, Eq, Debug, Structural)]
pub enum Hole {
    /// Any of the sixteen. The body may hold it, copy it, hand it back and `==` it, and
    /// nothing else.
    Any,
    /// The number types only, which buys the body `<`, `>`, `+`, `-`, `x` and `/` and costs
    /// it every caller holding a `str`, a `bool` or an array.
    Number,
}

/// What the first size of an array says, when it is not a number.
///
/// Finding an element is `(i - 1) x stride + j`, and a stride is the sizes *under* a
/// dimension, so the outermost size is the one the arithmetic never asks for and the only
/// one that can be left unsaid.
#[derive(Clone, Copy, PartialEq, Eq, Debug, Structural)]
pub enum Length {
    /// Every size is a number.
    Said,
    /// `grow`: there is no number yet, and this array may be added to.
    Grows,
    /// `any`: a length whoever wrote this was not told. It may be read, indexed and
    /// counted, and it may not be added to.
    Unknown,
}

/// A type, as far as the checker is concerned.
#[derive(PartialEq, Eq, Debug)]
pub enum Ty {
    /// Every whole-number type: how many bits, and whether one of them is a sign.
    Int { bits: u8, signed: bool },
    Str,
    Bool,
    /// IEEE 754 binary64, binary32 and binary16.
    F64,
    F32,
    F16,
    /// `e`: a number held exactly, however large it grows.
    Exact,
    /// `d32` and `d64`: a decimal float, which rounds in the base it was written in.
    Decimal { digits: u32 },
    /// `any` or `number`: the hole a generic function left for its caller.
    Hole(Hole),
    /// `arr.i64 (2 3)`: one allocation, laid out row by row. `length` is what the first
    /// size said when it was not a number.
    Arr { of: Box<Ty>, shape: Vec<usize>, length: Length },
}

/// A type as a plain value: the same as [`Ty`], with an array's sizes as a sequence.
pub enum TyView {
    Int { bits: u8, signed: bool },
    Str,
    Bool,
    F64,
    F32,
    F16,
    Exact,
    Decimal { digits: u32 },
    Hole(Hole),
    Arr { of: Box<TyView>, shape: Seq<usize>, length: Length },
}

/// The plain value of a type.
pub open spec fn view_of(t: Ty) -> TyView
    decreases t,
{
    match t {
        Ty::Int { bits, signed } => TyView::Int { bits, signed },
        Ty::Str => TyView::Str,
        Ty::Bool => TyView::Bool,
        Ty::F64 => TyView::F64,
        Ty::F32 => TyView::F32,
        Ty::F16 => TyView::F16,
        Ty::Exact => TyView::Exact,
        Ty::Decimal { digits } => TyView::Decimal { digits },
        Ty::Hole(h) => TyView::Hole(h),
        Ty::Arr { of, shape, length } => TyView::Arr {
            of: Box::new(view_of(*of)),
            shape: shape@,
            length,
        },
    }
}

impl View for Ty {
    type V = TyView;

    open spec fn view(&self) -> TyView {
        view_of(*self)
    }
}

impl Clone for Ty {
    fn clone(&self) -> (t: Ty)
        ensures
            t@ == self@,
        decreases self,
    {
        match self {
            Ty::Int { bits, signed } => Ty::Int { bits: *bits, signed: *signed },
            Ty::Str => Ty::Str,
            Ty::Bool => Ty::Bool,
            Ty::F64 => Ty::F64,
            Ty::F32 => Ty::F32,
            Ty::F16 => Ty::F16,
            Ty::Exact => Ty::Exact,
            Ty::Decimal { digits } => Ty::Decimal { digits: *digits },
            Ty::Hole(h) => Ty::Hole(*h),
            Ty::Arr { of, shape, length } => {
                let inner: &Ty = of;
                let sizes = shape.clone();
                assert(sizes@ =~= shape@);
                Ty::Arr { of: Box::new(inner.clone()), shape: sizes, length: *length }
            },
        }
    }
}

/// The hole a word names, if it names one.
pub open spec fn hole_named(word: Seq<char>) -> Option<Hole> {
    if word == "any"@ {
        Some(Hole::Any)
    } else if word == "number"@ {
        Some(Hole::Number)
    } else {
        None
    }
}

/// The word for a hole.
pub open spec fn hole_word(h: Hole) -> Seq<char> {
    match h {
        Hole::Any => "any"@,
        Hole::Number => "number"@,
    }
}

/// The word written where an array's first size would have been, if there is one.
pub open spec fn length_word(l: Length) -> Option<Seq<char>> {
    match l {
        Length::Said => None,
        Length::Grows => Some("grow"@),
        Length::Unknown => Some("any"@),
    }
}

/// `n` copies of `s`, one after another.
pub open spec fn repeat_text(s: Seq<char>, n: nat) -> Seq<char>
    decreases n,
{
    if n == 0 {
        Seq::empty()
    } else {
        repeat_text(s, (n - 1) as nat) + s
    }
}

/// How many `arr` links a type starts with.
pub open spec fn links(t: TyView) -> nat
    decreases t,
{
    match t {
        TyView::Arr { of, .. } => links(*of) + 1,
        _ => 0,
    }
}

/// What is under every `arr` link.
pub open spec fn base(t: TyView) -> TyView
    decreases t,
{
    match t {
        TyView::Arr { of, .. } => base(*of),
        _ => t,
    }
}

/// Every size an array type says, outside in, as the words it is written with.
pub open spec fn size_words(t: TyView) -> Seq<Seq<char>>
    decreases t,
{
    match t {
        TyView::Arr { of, shape, length } => {
            let first = match length_word(length) {
                Some(w) => seq![w],
                None => Seq::empty(),
            };
            first + shape.map_values(|n: usize| decimal(n as nat)) + size_words(*of)
        },
        _ => Seq::empty(),
    }
}

/// Words with a space between each two.
pub open spec fn spaced(words: Seq<Seq<char>>) -> Seq<char>
    decreases words.len(),
{
    if words.len() == 0 {
        Seq::empty()
    } else if words.len() == 1 {
        words[0]
    } else {
        spaced(words.drop_last()) + " "@ + words.last()
    }
}

/// The name of a type that is not an array.
pub open spec fn leaf_name(t: TyView) -> Seq<char> {
    match t {
        TyView::Int { bits, signed } => (if signed {
            "i"@
        } else {
            "u"@
        }) + decimal(bits as nat),
        TyView::Str => "str"@,
        TyView::Bool => "bool"@,
        TyView::Hole(h) => hole_word(h),
        TyView::Exact => "e"@,
        TyView::Decimal { digits } => if digits == 7 {
            "d32"@
        } else {
            "d64"@
        },
        TyView::F64 => "b64"@,
        TyView::F32 => "b32"@,
        TyView::F16 => "b16"@,
        TyView::Arr { .. } => Seq::empty(),
    }
}

/// The first of `n` copies of `s` begins the way `s` does.
proof fn lemma_repeat_first(s: Seq<char>, n: nat)
    requires
        s.len() > 0,
        n >= 1,
    ensures
        repeat_text(s, n).len() >= 1,
        repeat_text(s, n)[0] == s[0],
    decreases n,
{
    let r = repeat_text(s, (n - 1) as nat);
    if n > 1 {
        lemma_repeat_first(s, (n - 1) as nat);
        assert((r + s)[0] == r[0]);
    } else {
        assert(r =~= Seq::<char>::empty());
        assert(r + s =~= s);
    }
}

/// A type's name is written with `an` in front of it when it begins with `a`, `e` or
/// `i`, and with `a` otherwise.
pub proof fn law_an_goes_before_a_vowel(t: TyView)
    ensures
        name_of(t).len() >= 1,
        article_of(t) == if name_of(t)[0] == 'a' || name_of(t)[0] == 'e' || name_of(t)[0] == 'i' {
            "an"@
        } else {
            "a"@
        },
{
    reveal_strlit("an");
    reveal_strlit("a");
    reveal_strlit("i");
    reveal_strlit("u");
    reveal_strlit("str");
    reveal_strlit("bool");
    reveal_strlit("any");
    reveal_strlit("number");
    reveal_strlit("e");
    reveal_strlit("d32");
    reveal_strlit("d64");
    reveal_strlit("b64");
    reveal_strlit("b32");
    reveal_strlit("b16");
    reveal_strlit("arr.");
    match t {
        TyView::Arr { .. } => {
            lemma_repeat_first("arr."@, links(t));
            let r = repeat_text("arr."@, links(t));
            assert(name_of(t)[0] == r[0]);
        },
        TyView::Int { bits, signed } => {
            let first = if signed { "i"@ } else { "u"@ };
            assert(name_of(t) == first + decimal(bits as nat));
            assert(name_of(t)[0] == first[0]);
        },
        _ => {},
    }
}

/// The name of a type, as it is written: every `arr` link, then what they hold, then
/// every size in one pair of brackets, outside in.
pub open spec fn name_of(t: TyView) -> Seq<char> {
    match t {
        TyView::Arr { .. } => repeat_text("arr."@, links(t)) + leaf_name(base(t)) + " ("@
            + spaced(size_words(t)) + ")"@,
        _ => leaf_name(t),
    }
}

/// `a` or `an`, for the name of a type.
pub open spec fn article_of(t: TyView) -> Seq<char> {
    match t {
        TyView::Int { signed: true, .. } => "an"@,
        TyView::Arr { .. } => "an"@,
        TyView::Exact => "an"@,
        TyView::Int { signed: false, .. } => "a"@,
        TyView::Hole(Hole::Any) => "an"@,
        TyView::Hole(Hole::Number) => "a"@,
        _ => "a"@,
    }
}

fn push_links(t: &Ty, s: &mut String)
    ensures
        final(s)@ == old(s)@ + repeat_text("arr."@, links(t@)),
    decreases t,
{
    match t {
        Ty::Arr { of, .. } => {
            push_links(of, s);
            s.append("arr.");
        },
        _ => {
            assert(old(s)@ + repeat_text("arr."@, 0) =~= old(s)@);
        },
    }
}

fn collect_sizes(t: &Ty, words: &mut Vec<String>)
    ensures
        crate::diag::texts(final(words)@) == crate::diag::texts(old(words)@) + size_words(t@),
    decreases t,
{
    match t {
        Ty::Arr { of, shape, length } => {
            let ghost before = crate::diag::texts(words@);
            match length.word() {
                Some(w) => {
                    words.push(String::from_str(w));
                },
                None => {},
            }
            let ghost first = crate::diag::texts(words@);
            assert(first =~= before + match length_word(*length) {
                Some(w) => seq![w],
                None => Seq::<Seq<char>>::empty(),
            });
            let mut i: usize = 0;
            while i < shape.len()
                invariant
                    i <= shape@.len(),
                    crate::diag::texts(words@) == first + shape@.take(i as int).map_values(
                        |n: usize| decimal(n as nat),
                    ),
                decreases shape.len() - i,
            {
                let mut w = String::new();
                push_decimal(&mut w, shape[i] as u64);
                let ghost prev = words@;
                words.push(w);
                assert(crate::diag::texts(words@) =~= crate::diag::texts(prev).push(
                    decimal(shape@[i as int] as nat),
                ));
                assert(shape@.take(i + 1).map_values(|n: usize| decimal(n as nat))
                    =~= shape@.take(i as int).map_values(|n: usize| decimal(n as nat)).push(
                    decimal(shape@[i as int] as nat),
                ));
                assert(crate::diag::texts(words@) =~= first + shape@.take(i + 1).map_values(
                    |n: usize| decimal(n as nat),
                ));
                i = i + 1;
            }
            assert(shape@.take(shape@.len() as int) =~= shape@);
            collect_sizes(of, words);
            assert(crate::diag::texts(words@) =~= before + size_words(t@));
        },
        _ => {
            assert(crate::diag::texts(words@) =~= crate::diag::texts(old(words)@) + size_words(
                t@,
            ));
        },
    }
}

pub(crate) fn push_spaced(s: &mut String, words: &Vec<String>)
    ensures
        final(s)@ == old(s)@ + spaced(crate::diag::texts(words@)),
{
    let ghost all = crate::diag::texts(words@);
    let mut i: usize = 0;
    assert(all.take(0) =~= Seq::<Seq<char>>::empty());
    while i < words.len()
        invariant
            i <= words@.len(),
            all == crate::diag::texts(words@),
            s@ == old(s)@ + spaced(all.take(i as int)),
        decreases words.len() - i,
    {
        assert(all.take(i + 1).drop_last() =~= all.take(i as int));
        assert(all.take(i + 1).last() == words@[i as int]@);
        if i > 0 {
            s.append(" ");
        } else {
            assert(all.take(1) =~= seq![words@[0]@]);
        }
        s.append(words[i].as_str());
        i = i + 1;
    }
    assert(all.take(words@.len() as int) =~= all);
}

impl Hole {
    /// Every hole word there is, which is the list `from_word` answers to.
    pub const ALL: [&'static str; 2] = ["any", "number"];

    /// The hole a word names, if it names one.
    pub fn from_word(word: &str) -> (h: Option<Hole>)
        ensures
            h == hole_named(word@),
    {
        if same_str(word, "any") {
            Some(Hole::Any)
        } else if same_str(word, "number") {
            Some(Hole::Number)
        } else {
            None
        }
    }

    pub fn word(self) -> (w: &'static str)
        ensures
            w@ == hole_word(self),
    {
        match self {
            Hole::Any => "any",
            Hole::Number => "number",
        }
    }

    /// Whether a type may fill it: anything fills `any`, and only a number fills
    /// `number`.
    pub fn takes(self, ty: &Ty) -> (b: bool)
        ensures
            b == match self {
                Hole::Any => true,
                Hole::Number => is_number(ty@),
            },
    {
        match self {
            Hole::Any => true,
            Hole::Number => match ty {
                Ty::Int { .. } | Ty::Exact | Ty::F64 | Ty::F32 | Ty::F16 | Ty::Decimal {
                    ..
                } => true,
                _ => false,
            },
        }
    }
}

/// Whether a type is one of the number types.
pub open spec fn is_number(t: TyView) -> bool {
    match t {
        TyView::Int { .. } | TyView::Exact | TyView::F64 | TyView::F32 | TyView::F16
        | TyView::Decimal { .. } => true,
        _ => false,
    }
}

impl Length {
    /// Whether the number is known here, which is what lets `count` fold to one.
    pub fn known(self) -> (b: bool)
        ensures
            b == (self == Length::Said),
    {
        self == Length::Said
    }

    /// The word written where the number would have been.
    pub fn word(self) -> (w: Option<&'static str>)
        ensures
            match (w, length_word(self)) {
                (Some(a), Some(b)) => a@ == b,
                (None, None) => true,
                _ => false,
            },
    {
        match self {
            Length::Said => None,
            Length::Grows => Some("grow"),
            Length::Unknown => Some("any"),
        }
    }
}

impl Ty {
    /// The name of this type, as a person writes it: `i64`, `d32`, `arr.arr.u8 (grow 3)`.
    pub fn name(&self) -> (s: String)
        ensures
            s@ == name_of(self@),
    {
        match self {
            Ty::Arr { .. } => {
                let mut s = String::new();
                push_links(self, &mut s);
                let b = made_number(self);
                let leaf = b.leaf();
                s.append(leaf.as_str());
                s.append(" (");
                let mut words: Vec<String> = Vec::new();
                collect_sizes(self, &mut words);
                assert(crate::diag::texts(words@) =~= size_words(self@));
                push_spaced(&mut s, &words);
                s.append(")");
                s
            },
            _ => self.leaf(),
        }
    }

    fn leaf(&self) -> (s: String)
        requires
            !(self is Arr),
        ensures
            s@ == leaf_name(self@),
    {
        match self {
            Ty::Int { bits, signed } => {
                let mut s = if *signed {
                    String::from_str("i")
                } else {
                    String::from_str("u")
                };
                push_decimal(&mut s, *bits as u64);
                s
            },
            Ty::Str => String::from_str("str"),
            Ty::Bool => String::from_str("bool"),
            Ty::Hole(h) => String::from_str(h.word()),
            Ty::Exact => String::from_str("e"),
            Ty::Decimal { digits } => if *digits == 7 {
                String::from_str("d32")
            } else {
                String::from_str("d64")
            },
            Ty::F64 => String::from_str("b64"),
            Ty::F32 => String::from_str("b32"),
            Ty::F16 => String::from_str("b16"),
            Ty::Arr { .. } => String::new(),
        }
    }

    /// `a` or `an`, for the name of this type: a language whose errors are the point
    /// cannot write "a i64" in them.
    pub fn article(&self) -> (a: &'static str)
        ensures
            a@ == article_of(self@),
    {
        match self {
            Ty::Int { signed: true, .. } | Ty::Arr { .. } | Ty::Exact => "an",
            Ty::Int { signed: false, .. } => "a",
            Ty::Hole(Hole::Any) => "an",
            Ty::Hole(Hole::Number) => "a",
            Ty::Str | Ty::Bool | Ty::F64 | Ty::F32 | Ty::F16 | Ty::Decimal { .. } => "a",
        }
    }
}


/// Whether a value of `found` may be given where `wanted` was declared.
///
/// Equality everywhere but one place: an array whose length is `any` takes an array of
/// the same sizes under it whatever its own length says, because `any` claims to know
/// nothing about the length and nothing contradicts that.
pub open spec fn accepts_view(wanted: TyView, found: TyView) -> bool
    decreases wanted,
{
    match wanted {
        TyView::Arr { of: inner, shape, length } => match found {
            TyView::Arr { of: brought, shape: sizes, length: brought_length } => {
                if length == Length::Unknown {
                    let rest = if brought_length == Length::Said {
                        if sizes.len() >= 1 {
                            sizes.skip(1)
                        } else {
                            Seq::empty()
                        }
                    } else {
                        sizes
                    };
                    shape == rest && accepts_view(*inner, *brought)
                } else {
                    length == brought_length && shape == sizes && accepts_view(*inner, *brought)
                }
            },
            _ => false,
        },
        _ => wanted == found,
    }
}

/// Whether any allocation in a type says `any` for its length.
pub open spec fn unsaid_view(t: TyView) -> bool
    decreases t,
{
    match t {
        TyView::Arr { of, length, .. } => length == Length::Unknown || unsaid_view(*of),
        _ => false,
    }
}

/// Whether every allocation, from the top down, said how big it is.
pub open spec fn settled_view(t: TyView) -> bool
    decreases t,
{
    match t {
        TyView::Arr { of, length, .. } => length == Length::Said && settled_view(*of),
        _ => true,
    }
}

/// Every size multiplied together.
pub open spec fn product(s: Seq<usize>) -> nat
    decreases s.len(),
{
    if s.len() == 0 {
        1
    } else {
        product(s.drop_last()) * (s.last() as nat)
    }
}

/// How many written values one of a type takes, all told and all the way down.
pub open spec fn count_of(t: TyView) -> nat
    decreases t,
{
    match t {
        TyView::Arr { of, shape, .. } => product(shape) * count_of(*of),
        _ => 1,
    }
}

/// Whether every step of counting a type fits in a `usize`.
pub open spec fn count_fits(t: TyView) -> bool
    decreases t,
{
    match t {
        TyView::Arr { of, shape, .. } => {
            &&& forall|k: int| 0 <= k <= shape.len() ==> #[trigger] product(shape.take(k)) <= usize::MAX
            &&& count_fits(*of)
            &&& count_of(t) <= usize::MAX
        },
        _ => true,
    }
}

/// The type a one-word name stands for, if it stands for one.
pub open spec fn simple_view(word: Seq<char>) -> Option<TyView> {
    if word == "i8"@ {
        Some(TyView::Int { bits: 8, signed: true })
    } else if word == "i16"@ {
        Some(TyView::Int { bits: 16, signed: true })
    } else if word == "i32"@ {
        Some(TyView::Int { bits: 32, signed: true })
    } else if word == "i64"@ {
        Some(TyView::Int { bits: 64, signed: true })
    } else if word == "u8"@ {
        Some(TyView::Int { bits: 8, signed: false })
    } else if word == "u16"@ {
        Some(TyView::Int { bits: 16, signed: false })
    } else if word == "u32"@ {
        Some(TyView::Int { bits: 32, signed: false })
    } else if word == "u64"@ {
        Some(TyView::Int { bits: 64, signed: false })
    } else if word == "str"@ {
        Some(TyView::Str)
    } else if word == "bool"@ {
        Some(TyView::Bool)
    } else if word == "e"@ {
        Some(TyView::Exact)
    } else if word == "b64"@ {
        Some(TyView::F64)
    } else if word == "b32"@ {
        Some(TyView::F32)
    } else if word == "b16"@ {
        Some(TyView::F16)
    } else if word == "d32"@ {
        Some(TyView::Decimal { digits: 7 })
    } else if word == "d64"@ {
        Some(TyView::Decimal { digits: 16 })
    } else {
        None
    }
}

fn same_sizes(a: &Vec<usize>, b: &Vec<usize>, skip: usize) -> (r: bool)
    requires
        skip <= b@.len(),
    ensures
        r == (a@ == b@.skip(skip as int)),
        skip == 0 ==> r == (a@ == b@),
{
    assert(b@.skip(0) =~= b@);
    if a.len() != b.len() - skip {
        assert(a@.len() != b@.skip(skip as int).len());
        return false;
    }
    let n: usize = b.len();
    let mut i: usize = 0;
    while i < a.len()
        invariant
            i <= a@.len(),
            n == b@.len(),
            a@.len() + skip == b@.len(),
            forall|j: int| 0 <= j < i ==> a@[j] == b@[j + skip],
        decreases a.len() - i,
    {
        if a[i] != b[i + skip] {
            assert(a@[i as int] != b@.skip(skip as int)[i as int]);
            return false;
        }
        i = i + 1;
    }
    assert(a@ =~= b@.skip(skip as int));
    true
}

impl Ty {
    /// Every type that is one word, which is the list [`Ty::simple`] answers to.
    pub const NAMES: [&'static str; 16] = [
        "i8",
        "i16",
        "i32",
        "i64",
        "u8",
        "u16",
        "u32",
        "u64",
        "b16",
        "b32",
        "b64",
        "d32",
        "d64",
        "e",
        "bool",
        "str",
    ];

    /// The type a one-word name stands for.
    pub fn simple(word: &str) -> (t: Option<Ty>)
        ensures
            match (t, simple_view(word@)) {
                (Some(a), Some(b)) => a@ == b,
                (None, None) => true,
                _ => false,
            },
    {
        if same_str(word, "i8") {
            Some(Ty::Int { bits: 8, signed: true })
        } else if same_str(word, "i16") {
            Some(Ty::Int { bits: 16, signed: true })
        } else if same_str(word, "i32") {
            Some(Ty::Int { bits: 32, signed: true })
        } else if same_str(word, "i64") {
            Some(Ty::Int { bits: 64, signed: true })
        } else if same_str(word, "u8") {
            Some(Ty::Int { bits: 8, signed: false })
        } else if same_str(word, "u16") {
            Some(Ty::Int { bits: 16, signed: false })
        } else if same_str(word, "u32") {
            Some(Ty::Int { bits: 32, signed: false })
        } else if same_str(word, "u64") {
            Some(Ty::Int { bits: 64, signed: false })
        } else if same_str(word, "str") {
            Some(Ty::Str)
        } else if same_str(word, "bool") {
            Some(Ty::Bool)
        } else if same_str(word, "e") {
            Some(Ty::Exact)
        } else if same_str(word, "b64") {
            Some(Ty::F64)
        } else if same_str(word, "b32") {
            Some(Ty::F32)
        } else if same_str(word, "b16") {
            Some(Ty::F16)
        } else if same_str(word, "d32") {
            Some(Ty::Decimal { digits: 7 })
        } else if same_str(word, "d64") {
            Some(Ty::Decimal { digits: 16 })
        } else {
            None
        }
    }

    /// Whether this and `other` are the same type.
    pub fn same(&self, other: &Ty) -> (b: bool)
        ensures
            b == (self@ == other@),
        decreases self,
    {
        match self {
            Ty::Int { bits, signed } => match other {
                Ty::Int { bits: b2, signed: s2 } => *bits == *b2 && *signed == *s2,
                _ => false,
            },
            Ty::Str => matches!(other, Ty::Str),
            Ty::Bool => matches!(other, Ty::Bool),
            Ty::F64 => matches!(other, Ty::F64),
            Ty::F32 => matches!(other, Ty::F32),
            Ty::F16 => matches!(other, Ty::F16),
            Ty::Exact => matches!(other, Ty::Exact),
            Ty::Decimal { digits } => match other {
                Ty::Decimal { digits: d2 } => *digits == *d2,
                _ => false,
            },
            Ty::Hole(h) => match other {
                Ty::Hole(h2) => *h == *h2,
                _ => false,
            },
            Ty::Arr { of, shape, length } => match other {
                Ty::Arr { of: of2, shape: shape2, length: length2 } => {
                    let inner: &Ty = of;
                    *length == *length2 && same_sizes(shape, shape2, 0) && inner.same(of2)
                },
                _ => false,
            },
        }
    }

    /// Whether a value of `found` may be given where this is what was declared.
    pub fn accepts(&self, found: &Ty) -> (b: bool)
        ensures
            b == accepts_view(self@, found@),
        decreases self,
    {
        match self {
            Ty::Arr { of: wanted, shape, length } => match found {
                Ty::Arr { of: brought, shape: sizes, length: brought_length } => {
                    let inner: &Ty = wanted;
                    if *length == Length::Unknown {
                        let skip: usize = if brought_length.known() && sizes.len() >= 1 {
                            1
                        } else {
                            0
                        };
                        proof {
                            if *brought_length == Length::Said && sizes@.len() == 0 {
                                assert(sizes@.skip(0) =~= Seq::<usize>::empty());
                            }
                            if *brought_length != Length::Said {
                                assert(sizes@.skip(0) =~= sizes@);
                            }
                        }
                        same_sizes(shape, sizes, skip) && inner.accepts(brought)
                    } else {
                        *length == *brought_length && same_sizes(shape, sizes, 0) && inner.accepts(
                            brought,
                        )
                    }
                },
                _ => false,
            },
            _ => self.same(found),
        }
    }

    /// Whether every allocation in this, from the top down, said how big it is.
    pub fn settled(&self) -> (b: bool)
        ensures
            b == settled_view(self@),
        decreases self,
    {
        match self {
            Ty::Arr { of, length, .. } => {
                let inner: &Ty = of;
                length.known() && inner.settled()
            },
            _ => true,
        }
    }

    /// How many written values one of these takes, all told and all the way down.
    pub fn count(&self) -> (n: usize)
        requires
            count_fits(self@),
        ensures
            n == count_of(self@),
        decreases self,
    {
        match self {
            Ty::Arr { of, shape, .. } => {
                let inner: &Ty = of;
                let mut p: usize = 1;
                let mut i: usize = 0;
                assert(shape@.take(0) =~= Seq::<usize>::empty());
                while i < shape.len()
                    invariant
                        i <= shape@.len(),
                        p == product(shape@.take(i as int)),
                        forall|k: int| 0 <= k <= shape@.len() ==> #[trigger] product(shape@.take(k)) <= usize::MAX,
                    decreases shape.len() - i,
                {
                    assert(shape@.take(i + 1).drop_last() =~= shape@.take(i as int));
                    assert(product(shape@.take(i + 1)) <= usize::MAX);
                    p = p * shape[i];
                    i = i + 1;
                }
                assert(shape@.take(shape@.len() as int) =~= shape@);
                let below = inner.count();
                assert(p * below == count_of(self@));
                p * below
            },
            _ => 1,
        }
    }
}


/// Who can name a thing. Required on everything at the top of a file, because a missing
/// one would be a fourth answer given by silence.
#[derive(Clone, Copy, PartialEq, Eq, Debug, Structural)]
pub enum Visibility {
    /// This module, and everything nested inside it: a child sees its ancestors.
    Module,
    /// The module around this one, and everything under that, siblings included. One rung
    /// up and no further.
    Parent,
    File,
    Program,
    Export,
}

/// Whether a module path starts with another: "inside", for modules.
pub open spec fn inside(from: Seq<Seq<char>>, at: Seq<Seq<char>>) -> bool {
    at.len() <= from.len() && from.take(at.len() as int) == at
}

/// The visibility a word names, if it names one.
pub open spec fn visibility_named(word: Seq<char>) -> Option<Visibility> {
    if word == "module"@ {
        Some(Visibility::Module)
    } else if word == "parent"@ {
        Some(Visibility::Parent)
    } else if word == "file"@ {
        Some(Visibility::File)
    } else if word == "program"@ {
        Some(Visibility::Program)
    } else if word == "export"@ {
        Some(Visibility::Export)
    } else {
        None
    }
}

/// The word for a visibility.
pub open spec fn visibility_word(v: Visibility) -> Seq<char> {
    match v {
        Visibility::Module => "module"@,
        Visibility::Parent => "parent"@,
        Visibility::File => "file"@,
        Visibility::Program => "program"@,
        Visibility::Export => "export"@,
    }
}

/// Whether code in module `from` of file `from_file` may name something declared in
/// module `at` of file `at_file` with this word.
pub open spec fn reaches_view(
    v: Visibility,
    from_file: Seq<char>,
    from: Seq<Seq<char>>,
    at_file: Seq<char>,
    at: Seq<Seq<char>>,
) -> bool {
    let same_file = from_file == at_file;
    match v {
        Visibility::Module => same_file && inside(from, at),
        Visibility::Parent => at.len() > 0 && same_file && inside(from, at.drop_last()),
        Visibility::File => same_file,
        Visibility::Program | Visibility::Export => true,
    }
}

/// Whether `from` starts with the first `n` names of `at`.
fn starts_with(from: &[String], at: &[String], n: usize) -> (b: bool)
    requires
        n <= at@.len(),
    ensures
        b == inside(crate::diag::texts(from@), crate::diag::texts(at@).take(n as int)),
{
    let ghost f = crate::diag::texts(from@);
    let ghost a = crate::diag::texts(at@).take(n as int);
    if from.len() < n {
        return false;
    }
    let mut i: usize = 0;
    while i < n
        invariant
            i <= n,
            n <= from@.len(),
            n <= at@.len(),
            f == crate::diag::texts(from@),
            a == crate::diag::texts(at@).take(n as int),
            forall|j: int| 0 <= j < i ==> f[j] == a[j],
        decreases n - i,
    {
        if from[i] != at[i] {
            assert(f.take(n as int)[i as int] != a[i as int]);
            return false;
        }
        i = i + 1;
    }
    assert(f.take(n as int) =~= a);
    true
}

impl Visibility {
    /// Every visibility there is, narrowest first, which is the list `from_word` answers
    /// to.
    pub const ALL: [&'static str; 5] = ["module", "parent", "file", "program", "export"];

    /// The visibility a word names, if it names one.
    pub fn from_word(word: &str) -> (v: Option<Visibility>)
        ensures
            v == visibility_named(word@),
    {
        if same_str(word, "module") {
            Some(Visibility::Module)
        } else if same_str(word, "parent") {
            Some(Visibility::Parent)
        } else if same_str(word, "file") {
            Some(Visibility::File)
        } else if same_str(word, "program") {
            Some(Visibility::Program)
        } else if same_str(word, "export") {
            Some(Visibility::Export)
        } else {
            None
        }
    }

    /// Whether code in `from` may name something declared in `at` with this word. A
    /// place is a file and a module path, outermost first, and "inside" is the prefix
    /// relation.
    pub fn reaches(self, from: (&str, &[String]), at: (&str, &[String])) -> (b: bool)
        ensures
            b == reaches_view(
                self,
                from.0@,
                crate::diag::texts(from.1@),
                at.0@,
                crate::diag::texts(at.1@),
            ),
    {
        let (from_file, from_path) = from;
        let (at_file, at_path) = at;
        let same_file = same_str(from_file, at_file);
        proof {
            assert(crate::diag::texts(at_path@).take(at_path@.len() as int) =~= crate::diag::texts(
                at_path@,
            ));
            if at_path@.len() > 0 {
                assert(crate::diag::texts(at_path@).take(at_path@.len() - 1)
                    =~= crate::diag::texts(at_path@).drop_last());
            }
        }
        match self {
            Visibility::Module => same_file && starts_with(from_path, at_path, at_path.len()),
            Visibility::Parent => {
                if at_path.len() == 0 {
                    false
                } else {
                    same_file && starts_with(from_path, at_path, at_path.len() - 1)
                }
            },
            Visibility::File => same_file,
            Visibility::Program | Visibility::Export => true,
        }
    }

    pub fn word(self) -> (w: &'static str)
        ensures
            w@ == visibility_word(self),
    {
        match self {
            Visibility::Module => "module",
            Visibility::Parent => "parent",
            Visibility::File => "file",
            Visibility::Program => "program",
            Visibility::Export => "export",
        }
    }
}

/// One entry in a written shape: a number, or the word that says there is no number.
#[derive(Clone, Copy, PartialEq, Eq, Debug, Structural)]
pub enum Size {
    Fixed(usize),
    /// The span of the `grow`, for pointing at when it is in the wrong place.
    Grows(Span),
    /// The span of the `any`, the same way.
    Unknown(Span),
}

impl Size {
    /// The word that stands where a number would, if it is not a number.
    pub fn word(self) -> (w: Option<&'static str>)
        ensures
            match self {
                Size::Fixed(_) => w is None,
                Size::Grows(_) => w is Some && w->0@ == "grow"@,
                Size::Unknown(_) => w is Some && w->0@ == "any"@,
            },
    {
        match self {
            Size::Fixed(_) => None,
            Size::Grows(_) => Some("grow"),
            Size::Unknown(_) => Some("any"),
        }
    }

    /// Where the word was written, if it is not a number.
    pub fn at(self) -> (s: Option<Span>)
        ensures
            s == match self {
                Size::Fixed(_) => None,
                Size::Grows(at) => Some(at),
                Size::Unknown(at) => Some(at),
            },
    {
        match self {
            Size::Fixed(_) => None,
            Size::Grows(at) | Size::Unknown(at) => Some(at),
        }
    }
}

/// How many indices one more allocation down takes: every size under it, and the first
/// one when it is not a number.
pub open spec fn indices_at(shape: Seq<usize>, length: Length) -> int {
    shape.len() + if length == Length::Said {
        0int
    } else {
        1int
    }
}

/// Where each allocation of an array type ends, counting indices outside in from `at`.
pub open spec fn stops_from(t: TyView, at: int) -> Seq<int>
    decreases t,
{
    match t {
        TyView::Arr { of, shape, length } => {
            let next = at + indices_at(shape, length);
            seq![next] + stops_from(*of, next)
        },
        _ => Seq::empty(),
    }
}

/// Every index an array type takes, all the way down.
pub open spec fn all_indices(t: TyView) -> int
    decreases t,
{
    match t {
        TyView::Arr { of, shape, length } => indices_at(shape, length) + all_indices(*of),
        _ => 0,
    }
}

proof fn lemma_all_indices_nonnegative(t: TyView)
    ensures
        all_indices(t) >= 0,
    decreases t,
{
    match t {
        TyView::Arr { of, .. } => lemma_all_indices_nonnegative(*of),
        _ => {},
    }
}

fn push_stops(t: &Ty, at: usize, stops: &mut Vec<usize>)
    requires
        at + all_indices(t@) <= usize::MAX,
    ensures
        final(stops)@.map_values(|x: usize| x as int) == old(stops)@.map_values(|x: usize| x as int)
            + stops_from(t@, at as int),
    decreases t,
{
    match t {
        Ty::Arr { of, shape, length } => {
            let inner: &Ty = of;
            proof {
                lemma_all_indices_nonnegative(inner@);
            }
            let next = at + shape.len() + if length.known() {
                0
            } else {
                1
            };
            let ghost before = stops@;
            stops.push(next);
            assert(stops@.map_values(|x: usize| x as int) =~= before.map_values(|x: usize| x as int).push(
                next as int,
            ));
            let ghost middle = stops@;
            push_stops(inner, next, stops);
            assert(stops@.map_values(|x: usize| x as int) =~= before.map_values(|x: usize| x as int)
                + stops_from(t@, at as int));
        },
        _ => {
            assert(stops@.map_values(|x: usize| x as int) =~= old(stops)@.map_values(
                |x: usize| x as int,
            ) + stops_from(t@, at as int));
        },
    }
}

/// How many indices may be given before an allocation ends, counting outside in.
///
/// `arr.i64 (2 3)` is one allocation and takes two. `arr.arr.i64 (2 3)` is two, and takes
/// one, handing back the inner array, or two.
pub fn boundaries(ty: &Ty) -> (stops: Vec<usize>)
    requires
        all_indices(ty@) <= usize::MAX,
    ensures
        stops@.map_values(|x: usize| x as int) == stops_from(ty@, 0),
{
    let mut stops: Vec<usize> = Vec::new();
    push_stops(ty, 0, &mut stops);
    assert(stops@.map_values(|x: usize| x as int) =~= stops_from(ty@, 0));
    stops
}

/// Whether any allocation in this says `any` for its length.
///
/// Different from [`Ty::settled`], which a `grow` fails too: a growing array is one a
/// program makes and fills, and an `any` one is only ever one it was handed.
pub fn unsaid(ty: &Ty) -> (b: bool)
    ensures
        b == unsaid_view(ty@),
    decreases ty,
{
    match ty {
        Ty::Arr { of, length, .. } => {
            let inner: &Ty = of;
            *length == Length::Unknown || unsaid(inner)
        },
        _ => false,
    }
}

/// The type at the bottom of this, for saying which one it was.
pub fn made_number(ty: &Ty) -> (b: &Ty)
    ensures
        b@ == base(ty@),
        !(b is Arr),
    decreases ty,
{
    match ty {
        Ty::Arr { of, .. } => made_number(of),
        _ => ty,
    }
}

/// Whether a number the runtime has to build is anywhere inside a type.
pub open spec fn holds_made_view(t: TyView) -> bool
    decreases t,
{
    match t {
        TyView::Exact | TyView::Decimal { .. } => true,
        TyView::Arr { of, .. } => holds_made_view(*of),
        _ => false,
    }
}

/// Whether a number the runtime has to build turns up anywhere inside this. An `e` and a
/// decimal are both handles to something made while running, so neither can be written
/// into a table before anything runs.
pub fn holds_a_made_number(ty: &Ty) -> (b: bool)
    ensures
        b == holds_made_view(ty@),
    decreases ty,
{
    match ty {
        Ty::Exact | Ty::Decimal { .. } => true,
        Ty::Arr { of, .. } => holds_a_made_number(of),
        _ => false,
    }
}

/// An operator written between two values.
#[derive(Clone, Copy, PartialEq, Eq, Debug, Structural)]
pub enum OpKind {
    Pow,
    Mul,
    Div,
    Add,
    Sub,
    Lt,
    Gt,
    Le,
    Ge,
    Eq,
    Ne,
    Mod,
    And,
    Or,
}

/// How an operator is written.
pub open spec fn op_word(op: OpKind) -> Seq<char> {
    match op {
        OpKind::Pow => "^"@,
        OpKind::Mul => "x"@,
        OpKind::Div => "/"@,
        OpKind::Add => "+"@,
        OpKind::Sub => "-"@,
        OpKind::Lt => "<"@,
        OpKind::Gt => ">"@,
        OpKind::Le => "<=="@,
        OpKind::Ge => ">=="@,
        OpKind::Eq => "=="@,
        OpKind::Ne => "!=="@,
        OpKind::Mod => "mod"@,
        OpKind::And => "and"@,
        OpKind::Or => "or"@,
    }
}

impl OpKind {
    /// How this operator is written, for saying which one a message is about.
    pub fn written(self) -> (w: &'static str)
        ensures
            w@ == op_word(self),
    {
        match self {
            OpKind::Pow => "^",
            OpKind::Mul => "x",
            OpKind::Div => "/",
            OpKind::Add => "+",
            OpKind::Sub => "-",
            OpKind::Lt => "<",
            OpKind::Gt => ">",
            OpKind::Le => "<==",
            OpKind::Ge => ">==",
            OpKind::Eq => "==",
            OpKind::Ne => "!==",
            OpKind::Mod => "mod",
            OpKind::And => "and",
            OpKind::Or => "or",
        }
    }
}

/// How tightly an operator binds, where mathematics settled it.
pub open spec fn tier_of(op: OpKind) -> Option<u8> {
    match op {
        OpKind::Pow => Some(1u8),
        OpKind::Mul | OpKind::Div => Some(2u8),
        OpKind::Add | OpKind::Sub => Some(3u8),
        OpKind::Lt | OpKind::Gt | OpKind::Le | OpKind::Ge | OpKind::Eq | OpKind::Ne => Some(4u8),
        OpKind::Mod | OpKind::And | OpKind::Or => None,
    }
}

/// How tightly an operator binds, but only where mathematics settled it.
///
/// A smaller number binds tighter. `None` means nobody ever agreed, so it never binds
/// against anything: brackets say what was meant instead.
pub fn tier(op: OpKind) -> (t: Option<u8>)
    ensures
        t == tier_of(op),
{
    match op {
        OpKind::Pow => Some(1),
        OpKind::Mul | OpKind::Div => Some(2),
        OpKind::Add | OpKind::Sub => Some(3),
        OpKind::Lt | OpKind::Gt | OpKind::Le | OpKind::Ge | OpKind::Eq | OpKind::Ne => Some(4),
        OpKind::Mod | OpKind::And | OpKind::Or => None,
    }
}

/// Whether an operator compares rather than computes.
pub fn is_comparison(op: OpKind) -> (b: bool)
    ensures
        b == (tier_of(op) == Some(4u8)),
{
    match tier(op) {
        Some(t) => t == 4,
        None => false,
    }
}

/// Every word that may stand in a declaration's chain.
pub const CHAIN_LINKS: [&'static str; 11] = [
    "mut",
    "immut",
    "arr",
    "grow",
    "temp",
    "perm",
    "range",
    "while",
    "nothing",
    "any",
    "number",
];

/// What a written value may be when the type reading it is `bool`.
pub const LITERALS: [&'static str; 2] = ["true", "false"];

/// Every module the language provides.
pub const MODULES: [&'static str; 3] = ["maths", "text", "input"];

/// What one of [`PROVIDED`] is, and how the checker reads it.
#[derive(Clone, Copy, PartialEq, Eq, Debug, Structural)]
pub enum Provides {
    /// How many things are in something.
    Count,
    /// A list of pieces, joined, converting whatever is not text.
    Stitch,
    /// Whether that text could be read as that type.
    Reads,
    /// That text read as that type, stopping when it is not one.
    Becomes,
    /// One float in, one out. The number is which.
    Alone(u8),
    /// Two floats in, one out.
    Paired(u8),
    /// Three floats in, one out, rounded once.
    Fused,
    /// One `b64` in, one out, worked out until the rounding is certain.
    Slow(u8),
    /// Two `b64`s in, one out, the same way.
    Power(u8),
    /// One of the five that take text apart.
    Pieces(u8),
    /// One of the four that read what arrived from outside.
    Given(u8),
}

/// The functions the language provides, as the spec sees them: the module each is in
/// (empty for the four at the top level), its name, and what it is.
pub open spec fn provided_table() -> Seq<(Seq<char>, Seq<char>, Provides)> {
    seq![
        (""@, "count"@, Provides::Count),
        (""@, "stitch"@, Provides::Stitch),
        (""@, "is"@, Provides::Reads),
        (""@, "as"@, Provides::Becomes),
        ("text"@, "slice"@, Provides::Pieces(0u8)),
        ("text"@, "has"@, Provides::Pieces(1u8)),
        ("text"@, "find"@, Provides::Pieces(2u8)),
        ("text"@, "split"@, Provides::Pieces(3u8)),
        ("text"@, "trim"@, Provides::Pieces(4u8)),
        ("input"@, "all"@, Provides::Given(0u8)),
        ("input"@, "line"@, Provides::Given(1u8)),
        ("input"@, "more"@, Provides::Given(2u8)),
        ("input"@, "arguments"@, Provides::Given(3u8)),
        ("maths"@, "sqrt"@, Provides::Alone(0u8)),
        ("maths"@, "abs"@, Provides::Alone(1u8)),
        ("maths"@, "floor"@, Provides::Alone(2u8)),
        ("maths"@, "ceil"@, Provides::Alone(3u8)),
        ("maths"@, "round"@, Provides::Alone(4u8)),
        ("maths"@, "trunc"@, Provides::Alone(5u8)),
        ("maths"@, "copysign"@, Provides::Paired(0u8)),
        ("maths"@, "min"@, Provides::Paired(1u8)),
        ("maths"@, "max"@, Provides::Paired(2u8)),
        ("maths"@, "remainder"@, Provides::Paired(3u8)),
        ("maths"@, "fma"@, Provides::Fused),
        ("maths"@, "exp"@, Provides::Slow(0u8)),
        ("maths"@, "ln"@, Provides::Slow(1u8)),
        ("maths"@, "sin"@, Provides::Slow(2u8)),
        ("maths"@, "cos"@, Provides::Slow(3u8)),
        ("maths"@, "tan"@, Provides::Slow(4u8)),
        ("maths"@, "atan"@, Provides::Slow(5u8)),
        ("maths"@, "asin"@, Provides::Slow(6u8)),
        ("maths"@, "acos"@, Provides::Slow(7u8)),
        ("maths"@, "sinh"@, Provides::Slow(8u8)),
        ("maths"@, "cosh"@, Provides::Slow(9u8)),
        ("maths"@, "tanh"@, Provides::Slow(10u8)),
        ("maths"@, "asinh"@, Provides::Slow(11u8)),
        ("maths"@, "acosh"@, Provides::Slow(12u8)),
        ("maths"@, "atanh"@, Provides::Slow(13u8)),
        ("maths"@, "cbrt"@, Provides::Slow(14u8)),
        ("maths"@, "atan2"@, Provides::Power(1u8)),
        ("maths"@, "hypot"@, Provides::Power(2u8)),
    ]
}

/// The functions the language provides: the module each is in (empty for the four at the
/// top level), its name, and what it is. Kept in one place so that a diagnostic listing
/// them cannot go stale.
pub fn provided() -> (table: Vec<(&'static str, &'static str, Provides)>)
    ensures
        table@.map_values(|e: (&'static str, &'static str, Provides)| (e.0@, e.1@, e.2))
            == provided_table(),
{
    let mut table: Vec<(&'static str, &'static str, Provides)> = Vec::new();
    table.push(("", "count", Provides::Count));
    table.push(("", "stitch", Provides::Stitch));
    table.push(("", "is", Provides::Reads));
    table.push(("", "as", Provides::Becomes));
    table.push(("text", "slice", Provides::Pieces(0u8)));
    table.push(("text", "has", Provides::Pieces(1u8)));
    table.push(("text", "find", Provides::Pieces(2u8)));
    table.push(("text", "split", Provides::Pieces(3u8)));
    table.push(("text", "trim", Provides::Pieces(4u8)));
    table.push(("input", "all", Provides::Given(0u8)));
    table.push(("input", "line", Provides::Given(1u8)));
    table.push(("input", "more", Provides::Given(2u8)));
    table.push(("input", "arguments", Provides::Given(3u8)));
    table.push(("maths", "sqrt", Provides::Alone(0u8)));
    table.push(("maths", "abs", Provides::Alone(1u8)));
    table.push(("maths", "floor", Provides::Alone(2u8)));
    table.push(("maths", "ceil", Provides::Alone(3u8)));
    table.push(("maths", "round", Provides::Alone(4u8)));
    table.push(("maths", "trunc", Provides::Alone(5u8)));
    table.push(("maths", "copysign", Provides::Paired(0u8)));
    table.push(("maths", "min", Provides::Paired(1u8)));
    table.push(("maths", "max", Provides::Paired(2u8)));
    table.push(("maths", "remainder", Provides::Paired(3u8)));
    table.push(("maths", "fma", Provides::Fused));
    table.push(("maths", "exp", Provides::Slow(0u8)));
    table.push(("maths", "ln", Provides::Slow(1u8)));
    table.push(("maths", "sin", Provides::Slow(2u8)));
    table.push(("maths", "cos", Provides::Slow(3u8)));
    table.push(("maths", "tan", Provides::Slow(4u8)));
    table.push(("maths", "atan", Provides::Slow(5u8)));
    table.push(("maths", "asin", Provides::Slow(6u8)));
    table.push(("maths", "acos", Provides::Slow(7u8)));
    table.push(("maths", "sinh", Provides::Slow(8u8)));
    table.push(("maths", "cosh", Provides::Slow(9u8)));
    table.push(("maths", "tanh", Provides::Slow(10u8)));
    table.push(("maths", "asinh", Provides::Slow(11u8)));
    table.push(("maths", "acosh", Provides::Slow(12u8)));
    table.push(("maths", "atanh", Provides::Slow(13u8)));
    table.push(("maths", "cbrt", Provides::Slow(14u8)));
    table.push(("maths", "atan2", Provides::Power(1u8)));
    table.push(("maths", "hypot", Provides::Power(2u8)));
    assert(table@.map_values(|e: (&'static str, &'static str, Provides)| (e.0@, e.1@, e.2))
        =~= provided_table());
    table
}

/// The names `entries` holds in `module`, in order.
pub open spec fn names_in(module: Seq<char>, entries: Seq<(Seq<char>, Seq<char>, Provides)>) -> Seq<
    Seq<char>,
>
    decreases entries.len(),
{
    if entries.len() == 0 {
        Seq::empty()
    } else {
        let rest = names_in(module, entries.drop_last());
        if entries.last().0 == module {
            rest.push(entries.last().1)
        } else {
            rest
        }
    }
}

/// What a provided module holds, in the order [`provided`] lists it.
pub fn provided_in(module: &str) -> (names: Vec<&'static str>)
    ensures
        names@.map_values(|n: &'static str| n@) == names_in(module@, provided_table()),
{
    let table = provided();
    let ghost all = table@.map_values(|e: (&'static str, &'static str, Provides)| (e.0@, e.1@, e.2));
    let mut names: Vec<&'static str> = Vec::new();
    let mut i: usize = 0;
    assert(all.take(0) =~= Seq::<(Seq<char>, Seq<char>, Provides)>::empty());
    while i < table.len()
        invariant
            i <= table@.len(),
            all == table@.map_values(|e: (&'static str, &'static str, Provides)| (e.0@, e.1@, e.2)),
            all == provided_table(),
            names@.map_values(|n: &'static str| n@) == names_in(module@, all.take(i as int)),
        decreases table.len() - i,
    {
        let (held, said, _) = table[i];
        assert(all.take(i + 1).drop_last() =~= all.take(i as int));
        assert(all.take(i + 1).last() == (held@, said@, table@[i as int].2));
        if same_str(held, module) {
            let ghost before = names@;
            names.push(said);
            assert(names@.map_values(|n: &'static str| n@) =~= before.map_values(
                |n: &'static str| n@,
            ).push(said@));
        }
        i = i + 1;
    }
    assert(all.take(table@.len() as int) =~= all);
    names
}

/// One variable.
#[derive(Clone, PartialEq, Eq, Debug)]
pub struct Local {
    pub name: String,
    pub ty: Ty,
    pub mutable: bool,
    /// Where the name was written, for pointing at later.
    pub at: Span,
    /// The whole chain that declared it, so an error about `mut` can point at where `mut`
    /// was not.
    pub chain: Span,
    /// True for a loop's counter, which no `set` may touch.
    pub counter: bool,
}

/// Which variable: an index into a function's locals.
#[derive(Clone, Copy, PartialEq, Eq, Debug, Structural)]
pub struct LocalId(pub u32);

/// One file of a program: where its text begins in the whole, and the module its
/// declarations go into.
#[derive(Clone, PartialEq, Eq, Debug)]
pub struct Part {
    pub at: usize,
    pub name: String,
}


/// A type always accepts a value of itself.
pub proof fn law_accepts_itself(t: TyView)
    ensures
        accepts_view(t, t),
    decreases t,
{
    match t {
        TyView::Arr { of, shape, length } => {
            law_accepts_itself(*of);
        },
        _ => {},
    }
}

/// Where no allocation says `any` for its length, accepting is equality: only `any` lets a
/// type take a value it is not equal to.
pub proof fn law_accepts_is_equality_without_any(wanted: TyView, found: TyView)
    requires
        !unsaid_view(wanted),
    ensures
        accepts_view(wanted, found) == (wanted == found),
    decreases wanted,
{
    match wanted {
        TyView::Arr { of, shape, length } => match found {
            TyView::Arr { of: brought, shape: sizes, length: brought_length } => {
                law_accepts_is_equality_without_any(*of, *brought);
                if accepts_view(wanted, found) {
                    assert(*of == *brought);
                }
            },
            _ => {},
        },
        _ => {},
    }
}

/// A type that said every size is never one that says `any`.
pub proof fn law_settled_is_never_unsaid(t: TyView)
    requires
        settled_view(t),
    ensures
        !unsaid_view(t),
    decreases t,
{
    match t {
        TyView::Arr { of, .. } => law_settled_is_never_unsaid(*of),
        _ => {},
    }
}

/// Every hole has a word, and the word names that hole.
pub proof fn law_hole_words_name_their_hole(h: Hole)
    ensures
        hole_named(hole_word(h)) == Some(h),
{
    reveal_strlit("any");
    reveal_strlit("number");
    assert("number"@.len() != "any"@.len());
}

/// Every word [`Hole::ALL`] lists names a hole, and is one of [`CHAIN_LINKS`].
pub proof fn law_hole_words_are_chain_links(i: int)
    requires
        0 <= i < 2,
    ensures
        hole_named(Hole::ALL@[i]@) is Some,
        exists|j: int| 0 <= j < 11 && #[trigger] CHAIN_LINKS@[j]@ == Hole::ALL@[i]@,
{
    reveal_strlit("any");
    reveal_strlit("number");
    if i == 0 {
        assert(CHAIN_LINKS@[9]@ == Hole::ALL@[0]@);
    } else {
        assert(CHAIN_LINKS@[10]@ == Hole::ALL@[1]@);
    }
}

/// Every visibility has a word, the word names that visibility, and [`Visibility::ALL`]
/// lists the words narrowest first.
pub proof fn law_visibility_words_name_their_visibility(v: Visibility)
    ensures
        visibility_named(visibility_word(v)) == Some(v),
        Visibility::ALL@[match v {
            Visibility::Module => 0int,
            Visibility::Parent => 1int,
            Visibility::File => 2int,
            Visibility::Program => 3int,
            Visibility::Export => 4int,
        }]@ == visibility_word(v),
{
    reveal_strlit("module");
    reveal_strlit("parent");
    reveal_strlit("file");
    reveal_strlit("program");
    reveal_strlit("export");
    assert("parent"@[0] != "module"@[0]);
    assert("file"@.len() != "module"@.len() && "file"@.len() != "parent"@.len());
    assert("program"@.len() != "module"@.len() && "program"@.len() != "parent"@.len()
        && "program"@.len() != "file"@.len());
    assert("export"@[0] != "module"@[0] && "export"@[0] != "parent"@[0] && "export"@.len()
        != "file"@.len() && "export"@.len() != "program"@.len());
}

/// Only `program` and `export` cross from one file to another: with `module`, `parent`
/// and `file`, nothing declared in one file can be named from another, whatever the
/// module paths.
pub proof fn law_only_program_and_export_leave_the_file(
    v: Visibility,
    from_file: Seq<char>,
    from: Seq<Seq<char>>,
    at_file: Seq<char>,
    at: Seq<Seq<char>>,
)
    ensures
        from_file != at_file ==> (reaches_view(v, from_file, from, at_file, at) <==> (v
            == Visibility::Program || v == Visibility::Export)),
        v == Visibility::Program || v == Visibility::Export ==> reaches_view(
            v,
            from_file,
            from,
            at_file,
            at,
        ),
        v == Visibility::File ==> (reaches_view(v, from_file, from, at_file, at) <==> from_file
            == at_file),
{
}

/// The words are listed narrowest first, and each reaches at least as far as the one
/// before it: what `module` lets in, `parent` lets in too (unless the declaration is at
/// the top of its file, where `parent` names nothing); what `parent` lets in, `file` does;
/// what `file` lets in, `program` does.
pub proof fn law_each_visibility_reaches_as_far_as_the_narrower(
    from_file: Seq<char>,
    from: Seq<Seq<char>>,
    at_file: Seq<char>,
    at: Seq<Seq<char>>,
)
    ensures
        at.len() > 0 && reaches_view(Visibility::Module, from_file, from, at_file, at)
            ==> reaches_view(Visibility::Parent, from_file, from, at_file, at),
        reaches_view(Visibility::Parent, from_file, from, at_file, at) ==> reaches_view(
            Visibility::File,
            from_file,
            from,
            at_file,
            at,
        ),
        reaches_view(Visibility::File, from_file, from, at_file, at) ==> reaches_view(
            Visibility::Program,
            from_file,
            from,
            at_file,
            at,
        ),
        at.len() == 0 ==> !reaches_view(Visibility::Parent, from_file, from, at_file, at),
{
    if at.len() > 0 && reaches_view(Visibility::Module, from_file, from, at_file, at) {
        assert(from.take(at.len() - 1) =~= from.take(at.len() as int).take(at.len() - 1));
        assert(at.drop_last() =~= at.take(at.len() - 1));
    }
}

/// In one file, `module` lets in the declaring module and the modules under it and no
/// other, and `parent` lets in the module around the declaring one and everything under
/// that, siblings included, and no other: a name in module `a.b` is seen with `module`
/// from `a.b` and `a.b.c` but not from `a`, `a.d` or `e`; with `parent` from `a`, `a.b`
/// and `a.d` but not from `e`.
pub proof fn law_module_and_parent_follow_the_module_path(
    file: Seq<char>,
    from: Seq<Seq<char>>,
    at: Seq<Seq<char>>,
    name: Seq<char>,
)
    ensures
        reaches_view(Visibility::Module, file, at, file, at),
        reaches_view(Visibility::Module, file, at.push(name), file, at),
        reaches_view(Visibility::Module, file, from, file, at) <==> (at.len() <= from.len()
            && forall|i: int| 0 <= i < at.len() ==> from[i] == at[i]),
        reaches_view(Visibility::Parent, file, at, file, at.push(name)),
        reaches_view(Visibility::Parent, file, from, file, at.push(name)) <==> (at.len()
            <= from.len() && forall|i: int| 0 <= i < at.len() ==> from[i] == at[i]),
        at.len() > 0 ==> !reaches_view(Visibility::Module, file, at.drop_last(), file, at),
{
    assert(at.take(at.len() as int) =~= at);
    assert(at.push(name).take(at.len() as int) =~= at);
    assert(at.push(name).drop_last() =~= at);
    if at.len() <= from.len() && forall|i: int| 0 <= i < at.len() ==> from[i] == at[i] {
        assert(from.take(at.len() as int) =~= at);
    }
}


/// Every one-word type name [`Ty::NAMES`] lists stands for a type, and that type's name is
/// the word again.
#[verifier::rlimit(50)]
pub proof fn law_simple_names_name_themselves(i: int)
    requires
        0 <= i < 16,
    ensures
        simple_view(Ty::NAMES@[i]@) is Some,
        name_of(simple_view(Ty::NAMES@[i]@)->0) == Ty::NAMES@[i]@,
{
    reveal_strlit("i8");
    reveal_strlit("i16");
    reveal_strlit("i32");
    reveal_strlit("i64");
    reveal_strlit("u8");
    reveal_strlit("u16");
    reveal_strlit("u32");
    reveal_strlit("u64");
    reveal_strlit("b16");
    reveal_strlit("b32");
    reveal_strlit("b64");
    reveal_strlit("d32");
    reveal_strlit("d64");
    reveal_strlit("e");
    reveal_strlit("bool");
    reveal_strlit("str");
    reveal_strlit("i");
    reveal_strlit("u");
    reveal_with_fuel(decimal, 3);
    assert(decimal(8) =~= seq!['8']);
    assert(decimal(16) =~= seq!['1', '6']);
    assert(decimal(32) =~= seq!['3', '2']);
    assert(decimal(64) =~= seq!['6', '4']);
}

} // verus!
