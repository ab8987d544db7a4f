//! What a file says it uses: another file of the program, named between marks, or one
//! of the language's own modules, named bare.

use vstd::prelude::*;
use crate::checker::{
    pointed, entry_of, find_index, holds, lemma_entry_at, lemma_entry_push, lemma_entry_update, listed_for, name_at,
    reads_as_name, Checker,
};
use crate::diag::{texts, Diagnostic, DiagnosticView, LabelStyle};
use crate::program::joined;
use crate::source::Span;
use crate::text::same_str;
use crate::ty::Part;

verus! {

/// The other files of a program, each written between marks, in order.
pub open spec fn others_named(parts: Seq<Part>, file: Seq<char>) -> Seq<Seq<char>>
    decreases parts.len(),
{
    if parts.len() == 0 {
        Seq::empty()
    } else {
        let rest = others_named(parts.drop_last(), file);
        if parts.last().name@ == file {
            rest
        } else {
            rest.push("`'"@ + parts.last().name@ + "'`"@)
        }
    }
}

/// What E0516 says besides: which files the program has other than this one.
pub open spec fn others_tip(parts: Seq<Part>, file: Seq<char>) -> Seq<char> {
    let others = others_named(parts, file);
    if others.len() == 0 {
        "this program is one file, so there is nothing to import."@
    } else {
        "the others are "@ + joined(others, ", "@) + "."@
    }
}

/// Whether some part of the program is the file `name`.
pub open spec fn a_part(parts: Seq<Part>, name: Seq<char>) -> bool {
    exists|p: int| 0 <= p < parts.len() && (#[trigger] parts[p]).name@ == name
}

impl<'a> Checker<'a> {
    /// Whether everything but which files each file imports is as it was.
    pub open spec fn same_but_imports(&self, other: &Checker<'a>) -> bool {
        &&& self.source == other.source
        &&& self.locals == other.locals
        &&& self.scope == other.scope
        &&& self.depth == other.depth
        &&& self.signatures == other.signatures
        &&& self.named == other.named
        &&& self.constants == other.constants
        &&& self.known == other.known
        &&& self.at_file == other.at_file
        &&& self.at_module == other.at_module
        &&& self.modules == other.modules
        &&& self.opening == other.opening
        &&& self.at_top == other.at_top
        &&& self.libraries == other.libraries
        &&& self.body == other.body
        &&& self.hole == other.hole
    }

    /// `import ['maths'];` or `import maths;`: a file of this program, or one of the
    /// language's own modules as [`Checker::library`] reads it, made nameable in this file.
    ///
    /// An import inside a module is E0514; importing this file is E0515; a file that is
    /// no part of the program is E0516; and one already imported is E0517.
    pub fn imported(&mut self, name: Span, marked: bool, span: Span, parts: &[Part])
        requires
            reads_as_name(old(self).source, name),
        ensures
            !marked ==> old(self).library_read(&*final(self), name, span),
            marked ==> {
                let wanted = name_at(old(self).source, name);
                let had = listed_for(old(self).imports@, old(self).at_file@);
                &&& old(self).same_but_imports(&*final(self))
                &&& if old(self).at_module@.len() > 0 {
                    &&& final(self).imports == old(self).imports
                    &&& final(self).errors@.len() == old(self).errors@.len() + 1
                    &&& final(self).errors@.drop_last() == old(self).errors@
                    &&& final(self).errors@.last().code@ == "E0514"@
                    &&& final(self).errors@.last().message@
                        == "an `import` belongs to a file, not to a module inside one."@
                    &&& final(self).errors@.last()@ == pointed(
                        "E0514"@,
                        "an `import` belongs to a file, not to a module inside one."@,
                        span,
                        "here"@,
                        "`import` says which other files this file uses, and a module is not a file"@,
                        seq!["everything in a file may name everything the file imported."@],
                        "move it to the top of the file"@,
                    )
                } else if wanted == old(self).at_file@ {
                    &&& final(self).imports == old(self).imports
                    &&& final(self).errors@.len() == old(self).errors@.len() + 1
                    &&& final(self).errors@.drop_last() == old(self).errors@
                    &&& final(self).errors@.last().code@ == "E0515"@
                    &&& final(self).errors@.last().message@ == "`'"@ + wanted + "'` is this file."@
                    &&& final(self).errors@.last()@ == pointed(
                        "E0515"@,
                        "`'"@ + wanted + "'` is this file."@,
                        span,
                        "here"@,
                        "a file names everything in itself already, so importing it says nothing"@,
                        Seq::empty(),
                        "remove the line"@,
                    )
                } else if !a_part(parts@, wanted) {
                    &&& final(self).imports == old(self).imports
                    &&& final(self).errors@.len() == old(self).errors@.len() + 1
                    &&& final(self).errors@.drop_last() == old(self).errors@
                    &&& final(self).errors@.last().code@ == "E0516"@
                    &&& final(self).errors@.last().message@ == "`'"@ + wanted
                        + "'` is not a file of this program."@
                    &&& final(self).errors@.last()@ == pointed(
                        "E0516"@,
                        "`'"@ + wanted + "'` is not a file of this program."@,
                        name,
                        "here"@,
                        "what a program is made of is `[program] files` in `QNL-Config.toml`, and an import names one of them"@,
                        seq![others_tip(parts@, old(self).at_file@)],
                        "add it to `[program] files`, or check the spelling"@,
                    )
                } else if had.contains(wanted) {
                    &&& final(self).imports == old(self).imports
                    &&& final(self).errors@.len() == old(self).errors@.len() + 1
                    &&& final(self).errors@.drop_last() == old(self).errors@
                    &&& final(self).errors@.last().code@ == "E0517"@
                    &&& final(self).errors@.last().message@ == "`'"@ + wanted + "'` is imported twice."@
                    &&& final(self).errors@.last()@ == pointed(
                        "E0517"@,
                        "`'"@ + wanted + "'` is imported twice."@,
                        span,
                        "here"@,
                        "one import makes a file nameable, and a second says the same thing again"@,
                        Seq::empty(),
                        "remove one of them"@,
                    )
                } else {
                    &&& final(self).errors == old(self).errors
                    &&& listed_for(final(self).imports@, old(self).at_file@) == had.push(wanted)
                    &&& forall|k: Seq<char>|
                        k != old(self).at_file@ ==> entry_of(final(self).imports@, k) == entry_of(
                            old(self).imports@,
                            k,
                        )
                }
            },
    {
        if !marked {
            self.library(name, span);
            return;
        }
        if self.at_module.len() > 0 {
            self.errors.push(
                Diagnostic::new("E0514", "an `import` belongs to a file, not to a module inside one.")
                    .primary(span, "here")
                    .rule("`import` says which other files this file uses, and a module is not a file")
                    .tip("everything in a file may name everything the file imported.")
                    .fix("move it to the top of the file"),
            );
            proof {
                assert(self.errors@.drop_last() =~= old(self).errors@);
            }
            return;
        }
        let wanted = self.named(name);
        if same_str(wanted.as_str(), self.at_file.as_str()) {
            let mut message = String::from_str("`'");
            message.append(wanted.as_str());
            message.append("'` is this file.");
            self.errors.push(
                Diagnostic::new("E0515", message.as_str())
                    .primary(span, "here")
                    .rule("a file names everything in itself already, so importing it says nothing")
                    .fix("remove the line"),
            );
            proof {
                assert(self.errors@.drop_last() =~= old(self).errors@);
            }
            return;
        }
        let mut found = false;
        let mut others = String::new();
        let mut any_other = false;
        let mut p: usize = 0;
        while p < parts.len()
            invariant
                p <= parts@.len(),
                found == exists|q: int| 0 <= q < p && (#[trigger] parts@[q]).name@ == wanted@,
                others@ == joined(others_named(parts@.take(p as int), self.at_file@), ", "@),
                any_other == (others_named(parts@.take(p as int), self.at_file@).len() > 0),
            decreases parts.len() - p,
        {
            if same_str(parts[p].name.as_str(), wanted.as_str()) {
                found = true;
            }
            proof {
                assert(parts@.take(p + 1).drop_last() =~= parts@.take(p as int));
                assert(parts@.take(p + 1).last() == parts@[p as int]);
            }
            let ghost so_far = others_named(parts@.take(p as int), self.at_file@);
            if !same_str(parts[p].name.as_str(), self.at_file.as_str()) {
                if any_other {
                    others.append(", ");
                }
                others.append("`'");
                others.append(parts[p].name.as_str());
                others.append("'`");
                any_other = true;
                proof {
                    let item = "`'"@ + parts@[p as int].name@ + "'`"@;
                    if so_far.len() > 0 {
                        assert(so_far.push(item).drop_last() =~= so_far);
                    } else {
                        reveal_strlit("");
                    }
                }
            }
            p = p + 1;
        }
        if !found {
            let mut message = String::from_str("`'");
            message.append(wanted.as_str());
            message.append("'` is not a file of this program.");
            let mut tip = String::new();
            if any_other {
                tip.append("the others are ");
                tip.append(others.as_str());
                tip.append(".");
            } else {
                tip.append("this program is one file, so there is nothing to import.");
            }
            proof {
                assert(parts@.take(p as int) =~= parts@);
                assert(tip@ =~= others_tip(parts@, self.at_file@));
            }
            self.errors.push(
                Diagnostic::new("E0516", message.as_str())
                    .primary(name, "here")
                    .rule("what a program is made of is `[program] files` in `QNL-Config.toml`, and an import names one of them")
                    .tip(tip.as_str())
                    .fix("add it to `[program] files`, or check the spelling"),
            );
            proof {
                assert(self.errors@.drop_last() =~= old(self).errors@);
            }
            return;
        }
        let ghost known = self.imports@;
        match find_index(&self.imports, self.at_file.as_str()) {
            Some(i) => {
                proof {
                    lemma_entry_at(known, self.at_file@, i as int);
                }
                if holds(&self.imports[i].1, wanted.as_str()) {
                    let mut message = String::from_str("`'");
                    message.append(wanted.as_str());
                    message.append("'` is imported twice.");
                    self.errors.push(
                        Diagnostic::new("E0517", message.as_str())
                            .primary(span, "here")
                            .rule("one import makes a file nameable, and a second says the same thing again")
                            .fix("remove one of them"),
                    );
                    proof {
                        assert(self.errors@.drop_last() =~= old(self).errors@);
                    }
                    return;
                }
                let ghost said = wanted@;
                let mut entry = self.imports.remove(i);
                let ghost before = entry.1@;
                entry.1.push(wanted);
                self.imports.insert(i, entry);
                proof {
                    assert(self.imports@ =~= known.update(i as int, entry));
                    assert(texts(entry.1@) =~= texts(before).push(said));
                    lemma_entry_update(known, i as int, entry, self.at_file@);
                    assert forall|k: Seq<char>| k != old(self).at_file@ implies entry_of(self.imports@, k) == entry_of(known, k) by {
                        lemma_entry_update(known, i as int, entry, k);
                    }
                }
            },
            None => {
                proof {
                    lemma_entry_at(known, self.at_file@, known.len() as int);
                }
                let ghost said = wanted@;
                let entry = (self.at_file.clone(), vec![wanted]);
                self.imports.push(entry);
                proof {
                    assert(texts(entry.1@) =~= Seq::<Seq<char>>::empty().push(said));
                    lemma_entry_push(known, entry, self.at_file@);
                    assert forall|k: Seq<char>| k != old(self).at_file@ implies entry_of(self.imports@, k) == entry_of(known, k) by {
                        lemma_entry_push(known, entry, k);
                    }
                }
            },
        }
    }
}

} // verus!
