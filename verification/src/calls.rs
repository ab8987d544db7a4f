//! Which function a call names: the name after `call`, and the module path through which
//! it was reached, found the way every name is found, here and then outward.

use vstd::prelude::*;
use crate::checker::{
    pointed, span_to, copy_names, dot_joined, entry_of, find, first_link, lemma_entry_below, lemma_outward_below, reads_as_name, Checker,
};
use crate::diag::{texts, Diagnostic, DiagnosticView, LabelStyle};
use crate::program::joined;
use crate::source::Span;
use crate::text::{chars_of, push_char, same_str};
use crate::ty::{reaches_view, visibility_word, Visibility};

verus! {

/// What follows the last dot of a key, which is the name it keys; the whole key where it
/// has no dot.
pub open spec fn last_name(key: Seq<char>) -> Seq<char>
    decreases key.len(),
{
    if key.len() == 0 {
        key
    } else if key.last() == '.' {
        Seq::empty()
    } else {
        last_name(key.drop_last()).push(key.last())
    }
}

/// A path the way a call writes it: every dot between two marks.
pub open spec fn marked_dots(s: Seq<char>) -> Seq<char>
    decreases s.len(),
{
    if s.len() == 0 {
        s
    } else if s.last() == '.' {
        marked_dots(s.drop_last()) + "'.'"@
    } else {
        marked_dots(s.drop_last()).push(s.last())
    }
}

/// A key as a call in `file` would write it: without the file, where it is that one.
pub open spec fn shown_from(key: Seq<char>, file: Seq<char>) -> Seq<char> {
    let prefix = file.push('.');
    if key.len() >= prefix.len() && key.take(prefix.len() as int) == prefix {
        marked_dots(key.skip(prefix.len() as int))
    } else {
        marked_dots(key)
    }
}

/// How a message says where it is written: the top of the file, or the modules it is
/// inside.
pub open spec fn written_in(at: Seq<Seq<char>>) -> Seq<char> {
    if at.len() == 0 {
        "the top of the file"@
    } else {
        "`"@ + joined(at, "."@) + "`"@
    }
}

/// The rule E0511 gives for a visibility that does not reach: how far it does reach, for
/// something declared in the modules `at` of `file`.
pub open spec fn reach_rule(v: Visibility, at: Seq<Seq<char>>, file: Seq<char>) -> Seq<char> {
    match v {
        Visibility::Module => "`module` reaches `"@ + joined(at, "."@) + "` and everything nested inside it"@,
        Visibility::Parent => "`parent` reaches the module around `"@ + joined(at, "."@) + "`, and everything under that"@,
        _ => "`file` reaches the file it is written in, which is `"@ + file + "`"@,
    }
}

/// Whether what follows a key's last dot is `name`.
fn ends_as(key: &str, name: &str) -> (b: bool)
    ensures
        b == (last_name(key@) == name@),
{
    let chars = chars_of(key);
    let mut last = String::new();
    let mut i: usize = 0;
    assert(chars@.take(0) =~= Seq::<char>::empty());
    while i < chars.len()
        invariant
            i <= chars@.len(),
            chars@ == key@,
            last@ == last_name(chars@.take(i as int)),
        decreases chars.len() - i,
    {
        let c = chars[i];
        proof {
            assert(chars@.take(i + 1).drop_last() =~= chars@.take(i as int));
            assert(chars@.take(i + 1).last() == c);
        }
        if c == '.' {
            last = String::new();
        } else {
            push_char(&mut last, c);
        }
        i = i + 1;
    }
    assert(chars@.take(i as int) =~= key@);
    same_str(last.as_str(), name)
}

/// A key as a call in `file` would write it.
fn call_path_of(key: &str, file: &str) -> (s: String)
    ensures
        s@ == shown_from(key@, file@),
{
    let chars = chars_of(key);
    let mut prefix = String::from_str(file);
    push_char(&mut prefix, '.');
    let pre = chars_of(prefix.as_str());
    let mut starts = pre.len() <= chars.len();
    let mut k: usize = 0;
    while starts && k < pre.len()
        invariant
            k <= pre@.len(),
            starts ==> pre@.len() <= chars@.len(),
            starts == (pre@.len() <= chars@.len() && forall|j: int| 0 <= j < k ==> chars@[j] == pre@[j]),
        decreases pre.len() - k,
    {
        if chars[k] != pre[k] {
            starts = false;
        }
        k = k + 1;
    }
    proof {
        if starts {
            assert(chars@.take(pre@.len() as int) =~= pre@);
        } else if pre@.len() <= chars@.len() {
            let j = choose|j: int| 0 <= j < pre@.len() && chars@[j] != pre@[j];
            assert(chars@.take(pre@.len() as int)[j] != pre@[j]);
        }
    }
    let from: usize = if starts {
        pre.len()
    } else {
        0
    };
    let ghost rest = chars@.skip(from as int);
    let mut s = String::new();
    let mut i: usize = from;
    assert(rest.take(0) =~= Seq::<char>::empty());
    while i < chars.len()
        invariant
            from <= i <= chars@.len(),
            rest == chars@.skip(from as int),
            s@ == marked_dots(rest.take(i - from)),
        decreases chars.len() - i,
    {
        let c = chars[i];
        proof {
            assert(rest.take(i - from + 1).drop_last() =~= rest.take(i - from));
            assert(rest.take(i - from + 1).last() == c);
        }
        if c == '.' {
            s.append("'.'");
        } else {
            push_char(&mut s, c);
        }
        i = i + 1;
    }
    assert(rest.take(i - from) =~= rest);
    assert(key@ == chars@);
    assert(chars@.skip(0) =~= chars@);
    s
}

impl<'a> Checker<'a> {
    /// Whether every function key points at a signature.
    pub open spec fn functions_ok(&self) -> bool {
        forall|i: int| 0 <= i < self.named@.len() ==> (#[trigger] self.named@[i]).1 < self.signatures@.len()
    }

    /// What a key finds among the functions is one of them.
    pub(crate) proof fn lemma_function_below(&self, name: Seq<char>)
        requires
            self.functions_ok(),
        ensures
            self.reach_view(self.named@, name) matches Some(w) ==> w < self.signatures@.len(),
    {
        lemma_outward_below(
            self.named@,
            self.at_file@,
            texts(self.at_module@),
            name,
            self.at_module@.len() as int,
            self.signatures@.len() as int,
        );
        lemma_entry_below(self.named@, name, self.signatures@.len() as int);
    }

    /// The names along the path a call writes: the name after `call`, then each link.
    pub open spec fn call_names(&self, name: Span, chain: Seq<Span>) -> Seq<Seq<char>> {
        self.path_names(seq![name] + chain)
    }

    /// Which function a call names, from the name after `call`, the links of the path
    /// after it, and the bracket that closes the call.
    ///
    /// The path is looked for here and then outward. A path whose first link is a file
    /// of the program that this file does not import is E0518; anything else not found
    /// is E0455. A module on the way that may not be named from here is E0513, and a
    /// function whose visibility does not reach here is E0511.
    pub fn function_named(&mut self, name: Span, chain: &[Span], close: Span) -> (r: Option<u32>)
        requires
            reads_as_name(old(self).source, name),
            forall|i: int| 0 <= i < chain@.len() ==> reads_as_name(old(self).source, #[trigger] chain@[i]),
            old(self).functions_ok(),
        ensures
            old(self).same_tables(&*final(self)),
            final(self).body == old(self).body,
            final(self).hole == old(self).hole,
            ({
                let names = old(self).call_names(name, chain@);
                let key = joined(names, "."@);
                match old(self).reach_view(old(self).named@, key) {
                    None => {
                        let first = names[0];
                        let imported = match entry_of(old(self).imports@, old(self).at_file@) {
                            Some(used) => texts(used@).contains(first_link(key)),
                            None => false,
                        };
                        let unimported = names.len() > 1 && entry_of(old(self).imports@, first) is Some
                            && first != old(self).at_file@ && !imported;
                        &&& r is None
                        &&& final(self).errors@.len() == old(self).errors@.len() + 1
                        &&& final(self).errors@.drop_last() == old(self).errors@
                        &&& if unimported {
                            &&& final(self).errors@.last().code@ == "E0518"@
                            &&& final(self).errors@.last().message@ == "`'"@ + first
                                + "'` is a file of this program, and this file does not import it."@
                            &&& final(self).errors@.last()@ == pointed(
                                "E0518"@,
                                "`'"@ + first + "'` is a file of this program, and this file does not import it."@,
                                span_to(name, close),
                                "here"@,
                                "`[program] files` says what the program is made of, and `import` says which of them a file uses"@,
                                seq![
                                    "saying it at the top is what lets a reader see where a name came from without leaving the file."@,
                                ],
                                "`import ['"@ + first + "'];` at the top of this file"@,
                            )
                        } else {
                            &&& final(self).errors@.last().code@ == "E0455"@
                            &&& final(self).errors@.last().message@ == "there is nothing called `'"@ + key + "'`."@
                            &&& final(self).errors@.last()@.labels == seq![(span_to(name, close), "here"@, LabelStyle::Primary)]
                            &&& final(self).errors@.last()@.rules == seq![
                                "a name between marks after `call` is a function the writer declared"@,
                            ]
                            &&& final(self).errors@.last()@.tips == seq![
                                "a bare word there is one of Quench's own, which is how a reader tells them apart."@,
                            ]
                            &&& final(self).errors@.last()@.fixes.len() == 1
                            &&& (forall|j: int|
                                0 <= j < old(self).named@.len() ==> last_name(#[trigger] old(self).named@[j].0@) != names.last())
                                ==> final(self).errors@.last()@.fixes[0] == "check the spelling, or declare it with `fn`"@
                        }
                    },
                    Some(w) => {
                        let sig = old(self).signatures@[w as int];
                        if !(forall|d: int|
                            1 <= d <= sig.in_module@.len() ==> #[trigger] old(self).module_passes(
                                sig.in_file@,
                                texts(sig.in_module@),
                                d,
                            )) {
                            &&& r is None
                            &&& final(self).errors@.len() == old(self).errors@.len() + 1
                            &&& final(self).errors@.drop_last() == old(self).errors@
                            &&& final(self).errors@.last().code@ == "E0513"@
                            &&& old(self).module_refused(
                                &*final(self),
                                sig.in_file@,
                                texts(sig.in_module@),
                                span_to(name, close),
                            )
                        } else if sig.visibility matches Some(v) && !reaches_view(
                            v,
                            old(self).at_file@,
                            texts(old(self).at_module@),
                            sig.in_file@,
                            texts(sig.in_module@),
                        ) {
                            &&& r is None
                            &&& final(self).errors@.len() == old(self).errors@.len() + 1
                            &&& final(self).errors@.drop_last() == old(self).errors@
                            &&& final(self).errors@.last().code@ == "E0511"@
                            &&& final(self).errors@.last().message@ == "`'"@ + key + "'` says `"@ + visibility_word(
                                sig.visibility->0,
                            ) + "`, and this is written in "@ + written_in(texts(old(self).at_module@)) + "."@
                            &&& final(self).errors@.last()@ == (DiagnosticView {
                                code: "E0511"@,
                                message: final(self).errors@.last().message@,
                                rules: seq![reach_rule(sig.visibility->0, texts(sig.in_module@), sig.in_file@)],
                                tips: seq![
                                    "the ladder is `module`, `parent`, `file`, `program`, `export`, narrowest first."@,
                                ],
                                fixes: seq!["widen what it says, or move this inside"@],
                                labels: seq![
                                    (sig.at, "`"@ + visibility_word(sig.visibility->0) + "` here"@, LabelStyle::Secondary),
                                    (span_to(name, close), "and named here"@, LabelStyle::Primary),
                                ],
                            })
                        } else {
                            &&& r == Some(w)
                            &&& final(self).errors == old(self).errors
                        }
                    },
                }
            }),
    {
        let ghost path = seq![name] + chain@;
        let mut spelt: Vec<String> = Vec::new();
        let first_name = self.named(name);
        spelt.push(first_name);
        proof {
            assert(path[0] == name);
            assert(texts(spelt@) =~= self.path_names(path).take(1));
        }
        let mut i: usize = 0;
        while i < chain.len()
            invariant
                i <= chain@.len(),
                path == seq![name] + chain@,
                forall|k: int| 0 <= k < chain@.len() ==> reads_as_name(self.source, #[trigger] chain@[k]),
                texts(spelt@) == self.path_names(path).take(i + 1),
            decreases chain.len() - i,
        {
            let n = self.named(chain[i]);
            let ghost before = spelt@;
            let ghost said = n@;
            spelt.push(n);
            proof {
                assert(path[i + 1] == chain@[i as int]);
                assert(texts(spelt@) =~= texts(before).push(said));
                assert(self.path_names(path)[i + 1] == said);
                assert(self.path_names(path).take(i + 2) =~= self.path_names(path).take(i + 1).push(said));
            }
            i = i + 1;
        }
        assert(self.path_names(path).take(i + 1) =~= self.path_names(path));
        let key = dot_joined(spelt.as_slice(), spelt.len());
        assert(texts(spelt@).take(spelt@.len() as int) =~= texts(spelt@));
        let whole = name.to(close);
        proof {
            self.lemma_function_below(key@);
        }
        let which = match self.reachable(key.as_str()) {
            Some(which) => which,
            None => {
                let first = &spelt[0];
                let unimported = spelt.len() > 1 && find(&self.imports, first.as_str()).is_some() && !same_str(
                    first.as_str(),
                    self.at_file.as_str(),
                ) && !self.imports_a(key.as_str());
                if unimported {
                    let mut message = String::from_str("`'");
                    message.append(first.as_str());
                    message.append("'` is a file of this program, and this file does not import it.");
                    let mut fix = String::from_str("`import ['");
                    fix.append(first.as_str());
                    fix.append("'];` at the top of this file");
                    self.errors.push(
                        Diagnostic::new("E0518", message.as_str())
                            .primary(whole, "here")
                            .rule("`[program] files` says what the program is made of, and `import` says which of them a file uses")
                            .tip("saying it at the top is what lets a reader see where a name came from without leaving the file.")
                            .fix(fix.as_str()),
                    );
                    proof {
                        assert(self.errors@.drop_last() =~= old(self).errors@);
                    }
                    return None;
                }
                let last = &spelt[spelt.len() - 1];
                let mut elsewhere: Option<usize> = None;
                let mut j: usize = 0;
                while j < self.named.len() && elsewhere.is_none()
                    invariant
                        j <= self.named@.len(),
                        elsewhere matches Some(e) ==> e < self.named@.len() && last_name(self.named@[e as int].0@) == last@,
                        elsewhere is None ==> forall|k: int|
                            0 <= k < j ==> last_name(#[trigger] self.named@[k].0@) != last@,
                    decreases self.named.len() - j,
                {
                    if ends_as(self.named[j].0.as_str(), last.as_str()) {
                        elsewhere = Some(j);
                    }
                    j = j + 1;
                }
                let mut message = String::from_str("there is nothing called `'");
                message.append(key.as_str());
                message.append("'`.");
                let mut diagnostic = Diagnostic::new("E0455", message.as_str())
                    .primary(whole, "here")
                    .rule("a name between marks after `call` is a function the writer declared")
                    .tip("a bare word there is one of Quench's own, which is how a reader tells them apart.");
                diagnostic = match elsewhere {
                    Some(e) => {
                        let mut fix = String::from_str("`call '");
                        let at = call_path_of(self.named[e].0.as_str(), self.at_file.as_str());
                        fix.append(at.as_str());
                        fix.append("'[…]`, which is where that name is");
                        diagnostic.fix(fix.as_str())
                    },
                    None => diagnostic.fix("check the spelling, or declare it with `fn`"),
                };
                let ghost dv = diagnostic@;
                self.errors.push(diagnostic);
                proof {
                    assert(self.errors@.drop_last() =~= old(self).errors@);
                    assert(texts(spelt@).last() == last@);
                    assert(old(self).call_names(name, chain@).last() == last@);
                    assert(dv.labels == seq![(whole, "here"@, LabelStyle::Primary)]);
                    assert(self.errors@.last()@ == dv);
                }
                return None;
            },
        };
        let held = copy_names(&self.signatures[which as usize].in_module);
        let held_file = self.signatures[which as usize].in_file.clone();
        let ghost sig = self.signatures@[which as int];
        assert(held@.len() == texts(held@).len() == texts(sig.in_module@).len() == sig.in_module@.len());
        if !self.modules_reach(held_file.as_str(), held.as_slice(), whole) {
            return None;
        }
        let signature = &self.signatures[which as usize];
        match signature.visibility {
            Some(visibility) => {
                if !visibility.reaches(
                    (self.at_file.as_str(), self.at_module.as_slice()),
                    (signature.in_file.as_str(), signature.in_module.as_slice()),
                ) {
                    let said = visibility.word();
                    let at = signature.at;
                    let mut message = String::from_str("`'");
                    message.append(key.as_str());
                    message.append("'` says `");
                    message.append(said);
                    message.append("`, and this is written in ");
                    if self.at_module.len() == 0 {
                        message.append("the top of the file");
                    } else {
                        message.append("`");
                        let modules = dot_joined(self.at_module.as_slice(), self.at_module.len());
                        proof {
                            assert(texts(self.at_module@).take(self.at_module@.len() as int) =~= texts(self.at_module@));
                        }
                        message.append(modules.as_str());
                        message.append("`");
                    }
                    message.append(".");
                    let mut note = String::from_str("`");
                    note.append(said);
                    note.append("` here");
                    let held_at = dot_joined(signature.in_module.as_slice(), signature.in_module.len());
                    let reach = match visibility {
                        Visibility::Module => {
                            let mut r = String::from_str("`module` reaches `");
                            r.append(held_at.as_str());
                            r.append("` and everything nested inside it");
                            r
                        },
                        Visibility::Parent => {
                            let mut r = String::from_str("`parent` reaches the module around `");
                            r.append(held_at.as_str());
                            r.append("`, and everything under that");
                            r
                        },
                        _ => {
                            let mut r = String::from_str("`file` reaches the file it is written in, which is `");
                            r.append(signature.in_file.as_str());
                            r.append("`");
                            r
                        },
                    };
                    let d = Diagnostic::new("E0511", message.as_str())
                        .secondary(at, note.as_str())
                        .primary(whole, "and named here")
                        .rule(reach.as_str())
                        .tip("the ladder is `module`, `parent`, `file`, `program`, `export`, narrowest first.")
                        .fix("widen what it says, or move this inside");
                    let ghost dv = d@;
                    self.errors.push(d);
                    proof {
                        assert(self.errors@.drop_last() =~= old(self).errors@);
                        assert(texts(signature.in_module@).take(signature.in_module@.len() as int) =~= texts(signature.in_module@));
                        assert(reach@ == reach_rule(visibility, texts(signature.in_module@), signature.in_file@));
                        assert(dv.labels == seq![(at, note@, LabelStyle::Secondary), (whole, "and named here"@, LabelStyle::Primary)]);
                        assert(self.errors@.last()@ == dv);
                    }
                    return None;
                }
            },
            None => {},
        }
        Some(which)
    }
}

} // verus!
