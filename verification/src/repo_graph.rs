//! A repository as two graphs: which file imports which, and which function uses which.
use vstd::prelude::*;
use crate::data;
use crate::data::copy_texts;
use crate::table;
use crate::table::{sort_texts, NameSet, Table};
use crate::text;
use crate::text::{
    chars_of, contains, find, find_char, is_text, lines, owned, part, push_chars, push_decimal,
    push_text, same_chars, starts_with, string_of, trim, words,
};

verus! {

/// Whether a character is a letter or a digit in the sense of Unicode.
pub uninterp spec fn alphanumeric(c: char) -> bool;

/// `char::is_alphanumeric` tells letters and digits from other characters, by the character
/// alone.
pub assume_specification[ char::is_alphanumeric ](c: char) -> (r: bool)
    ensures
        r == alphanumeric(c),
;

/// A file of the repository.
#[derive(Debug, Clone)]
pub struct FileNode {
    pub path: String,
    /// The files that this one imports.
    pub imports: Vec<String>,
    /// The names that this one exports.
    pub exports: Vec<String>,
    /// The outside libraries that this one needs.
    pub dependencies: Vec<String>,
}

/// How two names are related.
#[derive(Debug, Clone, Copy, PartialEq, Eq, Structural)]
pub enum StructureEdgeType {
    Calls,
    Contains,
    Implements,
    References,
}

/// A relation between two names.
#[derive(Debug, Clone)]
pub struct StructureEdge {
    pub from: String,
    pub to: String,
    pub edge_type: StructureEdgeType,
}

/// The files and the names of a repository.
#[derive(Debug, Clone)]
pub struct RepoGraph {
    pub files: Table<FileNode>,
    pub structure_edges: Vec<StructureEdge>,
    pub functions: NameSet,
    pub types: NameSet,
}

/// What a file imports; a name that is no file imports nothing.
pub open spec fn imports_of(files: Map<Seq<char>, FileNode>, path: Seq<char>) -> Seq<Seq<char>> {
    if files.dom().contains(path) {
        text::texts(files[path].imports@)
    } else {
        Seq::empty()
    }
}

/// What a file exports; a name that is no file exports nothing.
pub open spec fn exports_of(files: Map<Seq<char>, FileNode>, path: Seq<char>) -> Seq<Seq<char>> {
    if files.dom().contains(path) {
        text::texts(files[path].exports@)
    } else {
        Seq::empty()
    }
}

/// The files among the first `n` that import a file.
pub open spec fn importers(entries: Seq<(String, FileNode)>, path: Seq<char>, n: int) -> Seq<
    Seq<char>,
>
    decreases n,
{
    if n <= 0 {
        Seq::empty()
    } else {
        let rest = importers(entries, path, n - 1);
        if text::texts(entries[n - 1].1.imports@).contains(path) {
            rest.push(entries[n - 1].0@)
        } else {
            rest
        }
    }
}

/// The names that the first `n` edges say a function calls.
pub open spec fn called(edges: Seq<StructureEdge>, func: Seq<char>, n: int) -> Seq<Seq<char>>
    decreases n,
{
    if n <= 0 {
        Seq::empty()
    } else {
        let rest = called(edges, func, n - 1);
        let e = edges[n - 1];
        if e.from@ == func && e.edge_type == StructureEdgeType::Calls {
            rest.push(e.to@)
        } else {
            rest
        }
    }
}

/// A name is of use for a file: it is the file itself or a direct dependency of it, or a direct
/// dependency exports it, or something that imports the file does.
pub open spec fn in_context(files: Map<Seq<char>, FileNode>, path: Seq<char>, name: Seq<char>) -> bool {
    ||| files.dom().contains(path) && name == path
    ||| imports_of(files, path).contains(name)
    ||| exists|dep: Seq<char>|
        imports_of(files, path).contains(dep) && #[trigger] exports_of(files, dep).contains(name)
    ||| exists|other: Seq<char>|
        #[trigger] files.dom().contains(other) && imports_of(files, other).contains(path)
            && exports_of(files, other).contains(name)
}

/// The texts are in order and none occurs twice.
pub open spec fn strictly_ordered(s: Seq<Seq<char>>) -> bool {
    vstd::relations::sorted_by(s, table::text_order()) && s.no_duplicates()
}

fn holds_name(v: &[String], name: &[char]) -> (r: bool)
    ensures
        r == text::texts(v@).contains(name@),
{
    for i in 0..v.len()
        invariant
            forall|j: int| 0 <= j < i ==> text::texts(v@)[j] != name@,
    {
        let other = chars_of(v[i].as_str());
        assert(text::texts(v@)[i as int] == other@);
        if same_chars(&other, name) {
            return true;
        }
    }
    false
}

/// The texts without neighbours that are equal.
pub open spec fn without_repeats(v: Seq<Seq<char>>) -> Seq<Seq<char>>
    decreases v.len(),
{
    if v.len() == 0 {
        Seq::empty()
    } else {
        let rest = without_repeats(v.drop_last());
        if rest.len() > 0 && rest.last() == v.last() {
            rest
        } else {
            rest.push(v.last())
        }
    }
}

proof fn lemma_without_repeats(v: Seq<Seq<char>>)
    requires
        vstd::relations::sorted_by(v, table::text_order()),
    ensures
        strictly_ordered(without_repeats(v)),
        forall|k: Seq<char>| #[trigger] without_repeats(v).contains(k) <==> v.contains(k),
        v.len() > 0 ==> without_repeats(v).len() > 0 && without_repeats(v).last() == v.last(),
    decreases v.len(),
{
    table::lemma_text_order();
    let order = table::text_order();
    if v.len() > 0 {
        let front = v.drop_last();
        assert forall|i: int, j: int| 0 <= i < j < front.len() implies #[trigger] order(
            front[i],
            front[j],
        ) by {
            assert(order(v[i], v[j]));
        }
        lemma_without_repeats(front);
        let rest = without_repeats(front);
        let r = without_repeats(v);
        let x = v.last();
        assert forall|k: Seq<char>| #[trigger] r.contains(k) <==> v.contains(k) by {
            assert(v =~= front.push(x));
            assert(rest.contains(k) <==> front.contains(k));
            data::lemma_push_contains(front, x, k);
            data::lemma_push_contains(rest, x, k);
            if rest.len() > 0 && rest.last() == x {
                assert(rest[rest.len() - 1] == x);
                assert(rest.contains(x));
            }
        }
        if !(rest.len() > 0 && rest.last() == x) {
            assert forall|i: int| 0 <= i < rest.len() implies order(#[trigger] rest[i], x)
                && rest[i] != x by {
                assert(rest.contains(rest[i]));
                assert(front.contains(rest[i]));
                let j = choose|j: int| 0 <= j < front.len() && front[j] == rest[i];
                assert(order(v[j], v[v.len() - 1]));
                if rest[i] == x {
                    let last = rest.last();
                    assert(last == front.last());
                    assert(front[front.len() - 1] == last);
                    assert(order(v[v.len() - 2], v[v.len() - 1]));
                    if i < rest.len() - 1 {
                        assert(order(rest[i], rest[rest.len() - 1]));
                        assert(order(x, last) && order(last, x));
                    }
                }
            }
            assert forall|i: int, j: int| 0 <= i < j < r.len() implies #[trigger] order(
                r[i],
                r[j],
            ) by {
                if j < rest.len() {
                    assert(order(rest[i], rest[j]));
                } else {
                    assert(order(rest[i], x));
                }
            }
            assert forall|i: int, j: int|
                0 <= i < r.len() && 0 <= j < r.len() && i != j implies r[i] != r[j] by {
                if i < rest.len() && j < rest.len() {
                    assert(rest[i] != rest[j]);
                } else if i < rest.len() {
                    assert(rest[i] != x);
                } else {
                    assert(rest[j] != x);
                }
            }
        }
    }
}

fn push_names(out: &mut Vec<Vec<char>>, names: &[String])
    ensures
        text::views(final(out)@) == text::views(old(out)@) + text::texts(names@),
{
    let ghost first = text::views(out@);
    let ghost nv = text::texts(names@);
    for i in 0..names.len()
        invariant
            nv == text::texts(names@),
            text::views(out@) =~= first + nv.take(i as int),
    {
        let ghost before = text::views(out@);
        let v = chars_of(names[i].as_str());
        out.push(v);
        assert(text::views(out@) =~= before.push(v@));
    }
    assert(nv.take(nv.len() as int) =~= nv);
}

impl RepoGraph {
    /// No file, function or type occurs twice.
    pub open spec fn wf(&self) -> bool {
        self.files.wf() && self.functions.wf() && self.types.wf()
    }

    pub fn new() -> (r: Self)
        ensures
            r.wf(),
            r.files@ == Map::<Seq<char>, FileNode>::empty(),
            r.structure_edges@ == Seq::<StructureEdge>::empty(),
            r.functions@ == Set::<Seq<char>>::empty(),
            r.types@ == Set::<Seq<char>>::empty(),
    {
        RepoGraph {
            files: Table::new(),
            structure_edges: Vec::new(),
            functions: NameSet::new(),
            types: NameSet::new(),
        }
    }

    /// Adds a file, in place of one with the same path, and its exports to the functions.
    pub fn add_file(&mut self, node: FileNode)
        requires
            old(self).wf(),
        ensures
            final(self).wf(),
            final(self).files@ == old(self).files@.insert(node.path@, node),
            final(self).functions@ == old(self).functions@.union(
                text::texts(node.exports@).to_set(),
            ),
            final(self).types == old(self).types,
            final(self).structure_edges == old(self).structure_edges,
    {
        let ghost ev = text::texts(node.exports@);
        let ghost first = self.functions@;
        assert(first.union(ev.take(0).to_set()) =~= first);
        for i in 0..node.exports.len()
            invariant
                ev == text::texts(node.exports@),
                self.functions.wf(),
                self.files == old(self).files,
                self.types == old(self).types,
                self.structure_edges == old(self).structure_edges,
                self.functions@ =~= first.union(ev.take(i as int).to_set()),
        {
            self.functions.insert(node.exports[i].as_str());
            proof {
                assert(ev.take(i + 1) =~= ev.take(i as int).push(ev[i as int]));
                assert forall|k: Seq<char>| self.functions@.contains(k) <==> first.union(
                    ev.take(i + 1).to_set(),
                ).contains(k) by {
                    data::lemma_push_contains(ev.take(i as int), ev[i as int], k);
                }
            }
        }
        assert(ev.take(ev.len() as int) =~= ev);
        let path = owned(node.path.as_str());
        self.files.insert(path.as_str(), node);
    }

    /// Adds a relation, and both its names to the functions.
    pub fn add_edge(&mut self, edge: StructureEdge)
        requires
            old(self).wf(),
        ensures
            final(self).wf(),
            final(self).structure_edges@ == old(self).structure_edges@.push(edge),
            final(self).functions@ == old(self).functions@.insert(edge.from@).insert(edge.to@),
            final(self).files == old(self).files,
            final(self).types == old(self).types,
    {
        self.functions.insert(edge.from.as_str());
        self.functions.insert(edge.to.as_str());
        self.structure_edges.push(edge);
    }

    /// The files that import a file.
    pub fn dependents(&self, path: &str) -> (r: Vec<String>)
        requires
            self.wf(),
        ensures
            text::texts(r@) == importers(
                self.files.entries@,
                path@,
                self.files.entries@.len() as int,
            ),
    {
        let key = chars_of(path);
        let mut out: Vec<String> = Vec::new();
        assert(text::texts(out@) =~= Seq::<Seq<char>>::empty());
        for i in 0..self.files.entries.len()
            invariant
                key@ == path@,
                text::texts(out@) =~= importers(self.files.entries@, path@, i as int),
        {
            if holds_name(&self.files.entries[i].1.imports, &key) {
                let ghost before = text::texts(out@);
                let s = owned(self.files.entries[i].0.as_str());
                out.push(s);
                assert(text::texts(out@) =~= before.push(s@));
            }
        }
        out
    }

    /// The files that a file imports.
    pub fn dependencies(&self, path: &str) -> (r: Vec<String>)
        requires
            self.wf(),
        ensures
            text::texts(r@) == imports_of(self.files@, path@),
    {
        match self.files.get(path) {
            Some(node) => copy_texts(&node.imports),
            None => {
                let none: Vec<String> = Vec::new();
                assert(text::texts(none@) =~= Seq::<Seq<char>>::empty());
                none
            },
        }
    }

    /// The functions that a function calls.
    pub fn called_functions(&self, func: &str) -> (r: Vec<String>)
        ensures
            text::texts(r@) == called(
                self.structure_edges@,
                func@,
                self.structure_edges@.len() as int,
            ),
    {
        let key = chars_of(func);
        let mut out: Vec<String> = Vec::new();
        assert(text::texts(out@) =~= Seq::<Seq<char>>::empty());
        for i in 0..self.structure_edges.len()
            invariant
                key@ == func@,
                text::texts(out@) =~= called(self.structure_edges@, func@, i as int),
        {
            let from = chars_of(self.structure_edges[i].from.as_str());
            if same_chars(&from, &key) && self.structure_edges[i].edge_type
                == StructureEdgeType::Calls {
                let ghost before = text::texts(out@);
                let s = owned(self.structure_edges[i].to.as_str());
                out.push(s);
                assert(text::texts(out@) =~= before.push(s@));
            }
        }
        out
    }

    /// The names that are of use for a file, in order, each once: the file itself, its direct
    /// dependencies, what they export, and what the files that import it export.
    #[verifier::loop_isolation(false)]
    pub fn context_for_file(&self, path: &str) -> (r: Vec<String>)
        requires
            self.wf(),
        ensures
            strictly_ordered(text::texts(r@)),
            forall|name: Seq<char>| #[trigger]
                text::texts(r@).contains(name) <==> in_context(self.files@, path@, name),
    {
        let key = chars_of(path);
        let mut all: Vec<Vec<char>> = Vec::new();
        assert(text::views(all@) =~= Seq::<Seq<char>>::empty());
        let ghost files = self.files@;
        let ghost iv = imports_of(files, path@);
        if let Some(node) = self.files.get(path) {
            for i in 0..node.imports.len()
                invariant
                    iv == text::texts(node.imports@),
                    forall|name: Seq<char>| #[trigger]
                        text::views(all@).contains(name) <==> exists|d: int|
                            0 <= d < i && #[trigger] exports_of(files, iv[d]).contains(name),
            {
                let ghost before = text::views(all@);
                if let Some(dep) = self.files.get(node.imports[i].as_str()) {
                    push_names(&mut all, &dep.exports);
                    assert(text::views(all@) == before + exports_of(files, iv[i as int]));
                } else {
                    assert(text::views(all@) =~= before + exports_of(files, iv[i as int]));
                }
                assert forall|name: Seq<char>| #[trigger] text::views(all@).contains(name)
                    <==> exists|d: int|
                    0 <= d < i + 1 && #[trigger] exports_of(files, iv[d]).contains(name) by {
                    lemma_concat_contains(before, exports_of(files, iv[i as int]), name);
                    if before.contains(name) {
                        let d = choose|d: int|
                            0 <= d < i && #[trigger] exports_of(files, iv[d]).contains(name);
                        assert(exports_of(files, iv[d]).contains(name));
                    }
                    if exists|d: int|
                        0 <= d < i + 1 && #[trigger] exports_of(files, iv[d]).contains(name) {
                        let d = choose|d: int|
                            0 <= d < i + 1 && #[trigger] exports_of(files, iv[d]).contains(name);
                        if d < i {
                            assert(exports_of(files, iv[d]).contains(name));
                        }
                    }
                }
            }
        }
        let ghost first = text::views(all@);
        assert forall|name: Seq<char>| #[trigger] first.contains(name) <==> exists|dep: Seq<char>|
            iv.contains(dep) && #[trigger] exports_of(files, dep).contains(name) by {
            if first.contains(name) {
                let d = choose|d: int|
                    0 <= d < iv.len() && #[trigger] exports_of(files, iv[d]).contains(name);
                assert(iv.contains(iv[d]));
            }
            if exists|dep: Seq<char>|
                iv.contains(dep) && #[trigger] exports_of(files, dep).contains(name) {
                let dep = choose|dep: Seq<char>|
                    iv.contains(dep) && #[trigger] exports_of(files, dep).contains(name);
                let d = choose|d: int| 0 <= d < iv.len() && iv[d] == dep;
                assert(exports_of(files, iv[d]).contains(name));
            }
        }
        if let Some(node) = self.files.get(path) {
            push_names(&mut all, &node.imports);
            all.push(chars_of(path));
            proof {
                let l = text::views(all@);
                assert(l =~= (first + iv).push(path@));
                assert forall|name: Seq<char>| #[trigger] l.contains(name) <==> first.contains(name)
                    || iv.contains(name) || name == path@ by {
                    lemma_concat_contains(first, iv, name);
                    lemma_concat_contains(first + iv, seq![path@], name);
                    assert(l =~= (first + iv) + seq![path@]);
                    assert(seq![path@].contains(name) <==> name == path@) by {
                        assert(seq![path@][0] == path@);
                    }
                }
            }
        }
        let ghost own = text::views(all@);
        assert forall|name: Seq<char>| #[trigger] own.contains(name) <==> first.contains(name)
            || iv.contains(name) || (files.dom().contains(path@) && name == path@) by {
        }
        let n: usize = self.files.entries.len();
        for i in 0..n
            invariant
                forall|name: Seq<char>| #[trigger]
                    text::views(all@).contains(name) <==> own.contains(name) || caller_among(
                        self.files.entries@,
                        path@,
                        name,
                        i as int,
                    ),
        {
            let ghost before = text::views(all@);
            let ghost e = self.files.entries@;
            let ghost ex = text::texts(e[i as int].1.exports@);
            let uses = holds_name(&self.files.entries[i].1.imports, &key);
            if uses {
                push_names(&mut all, &self.files.entries[i].1.exports);
            }
            assert forall|name: Seq<char>| #[trigger] text::views(all@).contains(name)
                <==> own.contains(name) || caller_among(e, path@, name, i + 1) by {
                lemma_concat_contains(before, ex, name);
                if caller_among(e, path@, name, i as int) {
                    let c = choose|c: int| #[trigger]
                        is_caller(e, path@, name, c) && c < i;
                    assert(is_caller(e, path@, name, c) && c < i + 1);
                }
                if caller_among(e, path@, name, i + 1) {
                    let c = choose|c: int| #[trigger]
                        is_caller(e, path@, name, c) && c < i + 1;
                    if c < i {
                        assert(is_caller(e, path@, name, c) && c < i);
                    }
                }
                if uses && ex.contains(name) {
                    assert(is_caller(e, path@, name, i as int) && i < i + 1);
                }
            }
        }
        let ghost full = text::views(all@);
        let sorted = sort_texts(&all);
        let ghost sv = text::views(sorted@);
        proof {
            table::lemma_text_order();
            full.lemma_sort_by_ensures(table::text_order());
            lemma_without_repeats(sv);
        }
        let mut out: Vec<String> = Vec::new();
        assert(sv.take(0) =~= Seq::<Seq<char>>::empty());
        assert(text::texts(out@) =~= Seq::<Seq<char>>::empty());
        for i in 0..sorted.len()
            invariant
                text::texts(out@) =~= without_repeats(sv.take(i as int)),
        {
            proof {
                assert(sv.take(i + 1).drop_last() =~= sv.take(i as int));
                assert(sv.take(i + 1).last() == sorted@[i as int]@);
            }
            let k: usize = out.len();
            let repeated = k > 0 && is_text(&sorted[i], out[k - 1].as_str());
            if !repeated {
                let ghost before = text::texts(out@);
                let s = string_of(&sorted[i]);
                out.push(s);
                assert(text::texts(out@) =~= before.push(s@));
            }
        }
        proof {
            assert(sv.take(sv.len() as int) =~= sv);
            let r = text::texts(out@);
            assert forall|name: Seq<char>| #[trigger] r.contains(name) <==> in_context(
                files,
                path@,
                name,
            ) by {
                assert(without_repeats(sv).contains(name) <==> sv.contains(name));
                table::lemma_ordered_contains(full, name);
                assert(full.contains(name) <==> own.contains(name) || caller_among(
                    self.files.entries@,
                    path@,
                    name,
                    n as int,
                ));
                assert(first.contains(name) <==> exists|dep: Seq<char>|
                    iv.contains(dep) && #[trigger] exports_of(files, dep).contains(name));
                lemma_callers(self.files, path@, name);
            }
        }
        out
    }

    /// The number of files.
    pub fn num_files(&self) -> (r: usize)
        ensures
            r == self.files.names().len(),
    {
        self.files.len()
    }

    /// The number of relations.
    pub fn num_edges(&self) -> (r: usize)
        ensures
            r == self.structure_edges@.len(),
    {
        self.structure_edges.len()
    }

    /// A description in one line.
    pub fn summary(&self) -> (r: String)
        requires
            self.wf(),
        ensures
            r@ == "RepoGraph: "@ + text::digits(self.files.names().len()) + " files, "@
                + text::digits(self.functions@.len()) + " functions, "@ + text::digits(
                self.types@.len(),
            ) + " types, "@ + text::digits(self.structure_edges@.len()) + " structural edges"@,
    {
        let mut out: Vec<char> = Vec::new();
        push_text(&mut out, "RepoGraph: ");
        push_decimal(&mut out, self.num_files() as u64);
        push_text(&mut out, " files, ");
        push_decimal(&mut out, self.functions.len() as u64);
        push_text(&mut out, " functions, ");
        push_decimal(&mut out, self.types.len() as u64);
        push_text(&mut out, " types, ");
        push_decimal(&mut out, self.num_edges() as u64);
        push_text(&mut out, " structural edges");
        string_of(&out)
    }
}

impl Default for RepoGraph {
    fn default() -> (r: Self)
        ensures
            r.wf(),
            r.files@ == Map::<Seq<char>, FileNode>::empty(),
            r.structure_edges@ == Seq::<StructureEdge>::empty(),
            r.functions@ == Set::<Seq<char>>::empty(),
            r.types@ == Set::<Seq<char>>::empty(),
    {
        RepoGraph::new()
    }
}

/// The file with number `c` imports a file and exports a name.
spec fn is_caller(e: Seq<(String, FileNode)>, path: Seq<char>, name: Seq<char>, c: int) -> bool {
    0 <= c < e.len() && text::texts(e[c].1.imports@).contains(path) && text::texts(
        e[c].1.exports@,
    ).contains(name)
}

/// One of the first `n` files imports a file and exports a name.
spec fn caller_among(
    e: Seq<(String, FileNode)>,
    path: Seq<char>,
    name: Seq<char>,
    n: int,
) -> bool {
    exists|c: int| #[trigger] is_caller(e, path, name, c) && c < n
}

proof fn lemma_callers(t: Table<FileNode>, path: Seq<char>, name: Seq<char>)
    requires
        t.wf(),
    ensures
        caller_among(t.entries@, path, name, t.entries@.len() as int) <==> exists|other: Seq<char>|
            #[trigger] t@.dom().contains(other) && imports_of(t@, other).contains(path)
                && exports_of(t@, other).contains(name),
{
    let e = t.entries@;
    if caller_among(e, path, name, e.len() as int) {
        let c = choose|c: int| #[trigger] is_caller(e, path, name, c) && c < e.len();
        t.lemma_at(c);
        let other = e[c].0@;
        assert(t@.dom().contains(other) && imports_of(t@, other).contains(path) && exports_of(
            t@,
            other,
        ).contains(name));
    }
    if exists|other: Seq<char>| #[trigger]
        t@.dom().contains(other) && imports_of(t@, other).contains(path) && exports_of(
            t@,
            other,
        ).contains(name) {
        let other = choose|other: Seq<char>| #[trigger]
            t@.dom().contains(other) && imports_of(t@, other).contains(path) && exports_of(
                t@,
                other,
            ).contains(name);
        let c = t.lemma_has(other);
        assert(is_caller(e, path, name, c) && c < e.len());
    }
}

proof fn lemma_concat_contains(a: Seq<Seq<char>>, b: Seq<Seq<char>>, k: Seq<char>)
    ensures
        (a + b).contains(k) <==> a.contains(k) || b.contains(k),
{
    let t = a + b;
    if a.contains(k) {
        let i = choose|i: int| 0 <= i < a.len() && a[i] == k;
        assert(t[i] == k);
    }
    if b.contains(k) {
        let i = choose|i: int| 0 <= i < b.len() && b[i] == k;
        assert(t[a.len() + i] == k);
    }
    if t.contains(k) {
        let i = choose|i: int| 0 <= i < t.len() && t[i] == k;
        if i < a.len() {
            assert(a[i] == k);
        } else {
            assert(b[i - a.len()] == k);
        }
    }
}

// ---- Circular imports

/// One file imports another.
pub open spec fn edge(files: Map<Seq<char>, FileNode>, a: Seq<char>, b: Seq<char>) -> bool {
    imports_of(files, a).contains(b)
}

/// Each file imports the next.
pub open spec fn is_path(files: Map<Seq<char>, FileNode>, c: Seq<Seq<char>>) -> bool {
    forall|i: int, j: int| 0 <= i && j == i + 1 && j < c.len() ==> edge(files, #[trigger] c[i], #[trigger] c[j])
}

/// Each file imports the next, and the last the first.
pub open spec fn is_cycle(files: Map<Seq<char>, FileNode>, c: Seq<Seq<char>>) -> bool {
    c.len() > 0 && is_path(files, c) && edge(files, c.last(), c[0])
}

/// The search below one name: the names that were visited and the cycles that were found. A name
/// on the current path closes a cycle; one that was visited before is left alone.
pub open spec fn dfs(
    files: Map<Seq<char>, FileNode>,
    node: Seq<char>,
    visited: Set<Seq<char>>,
    path: Seq<Seq<char>>,
    cycles: Seq<Seq<Seq<char>>>,
    fuel: nat,
) -> (Set<Seq<char>>, Seq<Seq<Seq<char>>>)
    decreases fuel, 0nat,
{
    if path.contains(node) {
        (visited, cycles.push(path.skip(path.index_of(node))))
    } else if visited.contains(node) || fuel == 0 {
        (visited, cycles)
    } else {
        dfs_imports(
            files,
            imports_of(files, node),
            imports_of(files, node).len(),
            visited.insert(node),
            path.push(node),
            cycles,
            (fuel - 1) as nat,
        )
    }
}

/// The search below the first `k` of some names.
pub open spec fn dfs_imports(
    files: Map<Seq<char>, FileNode>,
    imports: Seq<Seq<char>>,
    k: nat,
    visited: Set<Seq<char>>,
    path: Seq<Seq<char>>,
    cycles: Seq<Seq<Seq<char>>>,
    fuel: nat,
) -> (Set<Seq<char>>, Seq<Seq<Seq<char>>>)
    decreases fuel, k + 1,
{
    if k == 0 {
        (visited, cycles)
    } else {
        let (v, c) = dfs_imports(files, imports, (k - 1) as nat, visited, path, cycles, fuel);
        dfs(files, imports[k - 1], v, path, c, fuel)
    }
}

/// All names that occur as a file or an import among the first `n` files.
pub open spec fn all_names(entries: Seq<(String, FileNode)>, n: int) -> Seq<Seq<char>>
    decreases n,
{
    if n <= 0 {
        Seq::empty()
    } else {
        all_names(entries, n - 1).push(entries[n - 1].0@) + text::texts(entries[n - 1].1.imports@)
    }
}

/// The depth to which a search can go: the number of names.
pub open spec fn depth_of(t: Table<FileNode>) -> nat {
    all_names(t.entries@, t.entries@.len() as int).len()
}

/// The cycles found from the first `n` files, each search starting afresh.
pub open spec fn cycles_from(t: Table<FileNode>, n: int) -> Seq<Seq<Seq<char>>>
    decreases n,
{
    if n <= 0 {
        Seq::empty()
    } else {
        dfs(
            t@,
            t.entries@[n - 1].0@,
            Set::empty(),
            Seq::empty(),
            cycles_from(t, n - 1),
            depth_of(t),
        ).1
    }
}

/// The lists as texts.
pub open spec fn name_lists(v: Seq<Vec<String>>) -> Seq<Seq<Seq<char>>> {
    Seq::new(v.len(), |i: int| text::texts(v[i]@))
}

/// The names are all there are: those of files and of imports.
pub open spec fn universe(files: Map<Seq<char>, FileNode>, u: Set<Seq<char>>) -> bool {
    &&& u.finite()
    &&& forall|a: Seq<char>, b: Seq<char>| #[trigger] edge(files, a, b) ==> u.contains(b)
}

proof fn lemma_universe(t: Table<FileNode>)
    requires
        t.wf(),
    ensures
        universe(t@, all_names(t.entries@, t.entries@.len() as int).to_set()),
        forall|i: int|
            0 <= i < t.entries@.len() ==> all_names(
                t.entries@,
                t.entries@.len() as int,
            ).to_set().contains((#[trigger] t.entries@[i]).0@),
        all_names(t.entries@, t.entries@.len() as int).to_set().len() <= depth_of(t),
{
    let e = t.entries@;
    let n = e.len() as int;
    let s = all_names(e, n);
    s.lemma_cardinality_of_set();
    assert forall|a: Seq<char>, b: Seq<char>| #[trigger] edge(t@, a, b) implies s.to_set().contains(
        b,
    ) by {
        let i = t.lemma_has(a);
        lemma_all_names(e, n, i, b);
    }
    assert forall|i: int| 0 <= i < e.len() implies s.to_set().contains((#[trigger] e[i]).0@) by {
        lemma_all_names(e, n, i, e[i].0@);
    }
}

proof fn lemma_all_names(e: Seq<(String, FileNode)>, n: int, i: int, b: Seq<char>)
    requires
        0 <= i < n <= e.len(),
        e[i].0@ == b || text::texts(e[i].1.imports@).contains(b),
    ensures
        all_names(e, n).contains(b),
    decreases n,
{
    let front = all_names(e, n - 1);
    let last = text::texts(e[n - 1].1.imports@);
    data::lemma_push_contains(front, e[n - 1].0@, b);
    lemma_concat_contains(front.push(e[n - 1].0@), last, b);
    if i < n - 1 {
        lemma_all_names(e, n - 1, i, b);
    }
}

/// A set that has lost a member has one member less.
proof fn lemma_left(u: Set<Seq<char>>, visited: Set<Seq<char>>, node: Seq<char>)
    requires
        u.finite(),
        u.contains(node),
        !visited.contains(node),
    ensures
        u.difference(visited.insert(node)).len() + 1 == u.difference(visited).len(),
{
    assert(u.difference(visited.insert(node)) =~= u.difference(visited).remove(node));
    assert(u.difference(visited).finite());
}

/// Searches only add to what was visited and found.
proof fn lemma_dfs_grows(
    files: Map<Seq<char>, FileNode>,
    node: Seq<char>,
    visited: Set<Seq<char>>,
    path: Seq<Seq<char>>,
    cycles: Seq<Seq<Seq<char>>>,
    fuel: nat,
)
    ensures
        cycles.len() <= dfs(files, node, visited, path, cycles, fuel).1.len(),
        visited.subset_of(dfs(files, node, visited, path, cycles, fuel).0),
    decreases fuel, 0nat,
{
    if !path.contains(node) && !visited.contains(node) && fuel > 0 {
        let imports = imports_of(files, node);
        lemma_imports_grow(
            files,
            imports,
            imports.len(),
            visited.insert(node),
            path.push(node),
            cycles,
            (fuel - 1) as nat,
        );
    }
}

proof fn lemma_imports_grow(
    files: Map<Seq<char>, FileNode>,
    imports: Seq<Seq<char>>,
    k: nat,
    visited: Set<Seq<char>>,
    path: Seq<Seq<char>>,
    cycles: Seq<Seq<Seq<char>>>,
    fuel: nat,
)
    ensures
        cycles.len() <= dfs_imports(files, imports, k, visited, path, cycles, fuel).1.len(),
        visited.subset_of(dfs_imports(files, imports, k, visited, path, cycles, fuel).0),
    decreases fuel, k + 1,
{
    if k > 0 {
        lemma_imports_grow(files, imports, (k - 1) as nat, visited, path, cycles, fuel);
        let (v, c) = dfs_imports(files, imports, (k - 1) as nat, visited, path, cycles, fuel);
        lemma_dfs_grows(files, imports[k - 1], v, path, c, fuel);
    }
}

/// All lists are cycles, and no file occurs twice in one.
pub open spec fn all_cycles(files: Map<Seq<char>, FileNode>, cycles: Seq<Seq<Seq<char>>>) -> bool {
    forall|i: int|
        0 <= i < cycles.len() ==> is_cycle(files, #[trigger] cycles[i])
            && cycles[i].no_duplicates()
}

proof fn lemma_dfs_sound(
    files: Map<Seq<char>, FileNode>,
    node: Seq<char>,
    visited: Set<Seq<char>>,
    path: Seq<Seq<char>>,
    cycles: Seq<Seq<Seq<char>>>,
    fuel: nat,
)
    requires
        is_path(files, path),
        path.len() > 0 ==> edge(files, path.last(), node),
        path.no_duplicates(),
        all_cycles(files, cycles),
    ensures
        all_cycles(files, dfs(files, node, visited, path, cycles, fuel).1),
    decreases fuel, 0nat,
{
    if path.contains(node) {
        let at = path.index_of(node);
        let c = path.skip(at);
        assert(path[at] == node);
        assert(c[0] == node);
        assert(c.last() == path.last());
        assert forall|i: int, j: int| 0 <= i && j == i + 1 && j < c.len() implies edge(
            files,
            #[trigger] c[i],
            #[trigger] c[j],
        ) by {
            assert(edge(files, path[at + i], path[at + j]));
        }
    } else if !visited.contains(node) && fuel > 0 {
        let imports = imports_of(files, node);
        let p = path.push(node);
        assert(is_path(files, p)) by {
            assert forall|i: int, j: int| 0 <= i && j == i + 1 && j < p.len() implies edge(
                files,
                #[trigger] p[i],
                #[trigger] p[j],
            ) by {
                if j < path.len() {
                    assert(edge(files, path[i], path[j]));
                }
            }
        }
        lemma_imports_sound(
            files,
            imports,
            imports.len(),
            visited.insert(node),
            p,
            cycles,
            (fuel - 1) as nat,
        );
    }
}

proof fn lemma_imports_sound(
    files: Map<Seq<char>, FileNode>,
    imports: Seq<Seq<char>>,
    k: nat,
    visited: Set<Seq<char>>,
    path: Seq<Seq<char>>,
    cycles: Seq<Seq<Seq<char>>>,
    fuel: nat,
)
    requires
        k <= imports.len(),
        is_path(files, path),
        path.len() > 0,
        imports == imports_of(files, path.last()),
        path.no_duplicates(),
        all_cycles(files, cycles),
    ensures
        all_cycles(files, dfs_imports(files, imports, k, visited, path, cycles, fuel).1),
    decreases fuel, k + 1,
{
    if k > 0 {
        lemma_imports_sound(files, imports, (k - 1) as nat, visited, path, cycles, fuel);
        let (v, c) = dfs_imports(files, imports, (k - 1) as nat, visited, path, cycles, fuel);
        assert(imports.contains(imports[k - 1]));
        lemma_dfs_sound(files, imports[k - 1], v, path, c, fuel);
    }
}

/// Every name comes after all that it imports.
spec fn settled(files: Map<Seq<char>, FileNode>, order: Seq<Seq<char>>) -> bool {
    forall|i: int, b: Seq<char>|
        0 <= i < order.len() && #[trigger] edge(files, order[i], b) ==> order.take(i).contains(b)
}

/// A search without cycles settles the name and all below it.
proof fn lemma_dfs_settles(
    files: Map<Seq<char>, FileNode>,
    node: Seq<char>,
    visited: Set<Seq<char>>,
    path: Seq<Seq<char>>,
    cycles: Seq<Seq<Seq<char>>>,
    fuel: nat,
    u: Set<Seq<char>>,
    order: Seq<Seq<char>>,
) -> (more: Seq<Seq<char>>)
    requires
        universe(files, u),
        u.contains(node),
        u.difference(visited).len() <= fuel,
        settled(files, order),
        forall|k: Seq<char>| #[trigger] visited.contains(k) <==> order.contains(k) || path.contains(k),
        dfs(files, node, visited, path, cycles, fuel).1.len() == cycles.len(),
    ensures
        settled(files, more),
        more.contains(node),
        forall|k: Seq<char>| #[trigger] order.contains(k) ==> more.contains(k),
        forall|k: Seq<char>| #[trigger]
            dfs(files, node, visited, path, cycles, fuel).0.contains(k) <==> more.contains(k)
                || path.contains(k),
    decreases fuel, 0nat,
{
    if visited.contains(node) {
        order
    } else {
        lemma_left(u, visited, node);
        let imports = imports_of(files, node);
        let p = path.push(node);
        let v = visited.insert(node);
        assert forall|k: Seq<char>| #[trigger] v.contains(k) <==> order.contains(k) || p.contains(
            k,
        ) by {
            data::lemma_push_contains(path, node, k);
        }
        assert forall|i: int| 0 <= i < imports.len() implies u.contains(#[trigger] imports[i]) by {
            assert(imports.contains(imports[i]));
            assert(edge(files, node, imports[i]));
        }
        let below = lemma_imports_settle(
            files,
            imports,
            imports.len(),
            v,
            p,
            cycles,
            (fuel - 1) as nat,
            u,
            order,
        );
        let more = below.push(node);
        assert forall|i: int, b: Seq<char>|
            0 <= i < more.len() && #[trigger] edge(files, more[i], b) implies more.take(
            i,
        ).contains(b) by {
            if i < below.len() {
                assert(edge(files, below[i], b));
                assert(more.take(i) =~= below.take(i));
            } else {
                assert(more.take(i) =~= below);
                let j = choose|j: int| 0 <= j < imports.len() && imports[j] == b;
                assert(below.contains(imports[j]));
            }
        }
        assert(more[below.len() as int] == node);
        assert forall|k: Seq<char>| #[trigger] order.contains(k) implies more.contains(k) by {
            data::lemma_push_contains(below, node, k);
        }
        assert forall|k: Seq<char>| #[trigger]
            dfs(files, node, visited, path, cycles, fuel).0.contains(k) <==> more.contains(k)
                || path.contains(k) by {
            data::lemma_push_contains(below, node, k);
            data::lemma_push_contains(path, node, k);
        }
        more
    }
}

proof fn lemma_imports_settle(
    files: Map<Seq<char>, FileNode>,
    imports: Seq<Seq<char>>,
    k: nat,
    visited: Set<Seq<char>>,
    path: Seq<Seq<char>>,
    cycles: Seq<Seq<Seq<char>>>,
    fuel: nat,
    u: Set<Seq<char>>,
    order: Seq<Seq<char>>,
) -> (more: Seq<Seq<char>>)
    requires
        k <= imports.len(),
        universe(files, u),
        forall|i: int| 0 <= i < imports.len() ==> u.contains(#[trigger] imports[i]),
        u.difference(visited).len() <= fuel,
        settled(files, order),
        forall|x: Seq<char>| #[trigger] visited.contains(x) <==> order.contains(x) || path.contains(x),
        dfs_imports(files, imports, k, visited, path, cycles, fuel).1.len() == cycles.len(),
    ensures
        settled(files, more),
        forall|i: int| 0 <= i < k ==> more.contains(#[trigger] imports[i]),
        forall|x: Seq<char>| #[trigger] order.contains(x) ==> more.contains(x),
        forall|x: Seq<char>| #[trigger]
            dfs_imports(files, imports, k, visited, path, cycles, fuel).0.contains(x)
                <==> more.contains(x) || path.contains(x),
    decreases fuel, k + 1,
{
    if k == 0 {
        order
    } else {
        let j = (k - 1) as nat;
        let (v, c) = dfs_imports(files, imports, j, visited, path, cycles, fuel);
        lemma_imports_grow(files, imports, j, visited, path, cycles, fuel);
        lemma_dfs_grows(files, imports[k - 1], v, path, c, fuel);
        let mid = lemma_imports_settle(
            files,
            imports,
            j,
            visited,
            path,
            cycles,
            fuel,
            u,
            order,
        );
        assert(u.difference(v).subset_of(u.difference(visited)));
        vstd::set_lib::lemma_len_subset(u.difference(v), u.difference(visited));
        let more = lemma_dfs_settles(files, imports[k - 1], v, path, c, fuel, u, mid);
        assert forall|i: int| 0 <= i < k implies more.contains(#[trigger] imports[i]) by {
            if i < j {
                assert(mid.contains(imports[i]));
            }
        }
        assert forall|x: Seq<char>| #[trigger] order.contains(x) implies more.contains(x) by {
            assert(mid.contains(x));
        }
        more
    }
}

/// Where a name first stands.
spec fn first_place(order: Seq<Seq<char>>, x: Seq<char>) -> int
    decreases order.len(),
{
    if order.len() == 0 || order[0] == x {
        0
    } else {
        1 + first_place(order.skip(1), x)
    }
}

proof fn lemma_first_place(order: Seq<Seq<char>>, x: Seq<char>, n: int)
    requires
        0 <= n <= order.len(),
        order.take(n).contains(x),
    ensures
        0 <= first_place(order, x) < n,
        order[first_place(order, x)] == x,
    decreases order.len(),
{
    let t = order.take(n);
    let i = choose|i: int| 0 <= i < t.len() && t[i] == x;
    if order[0] != x {
        let s = order.skip(1);
        assert(s.take(n - 1)[i - 1] == x);
        lemma_first_place(s, x, n - 1);
    }
}

/// No cycle goes through a settled name.
proof fn lemma_settled_has_no_cycle(
    files: Map<Seq<char>, FileNode>,
    order: Seq<Seq<char>>,
    c: Seq<Seq<char>>,
)
    requires
        settled(files, order),
        is_cycle(files, c),
    ensures
        !order.contains(c[0]),
{
    if order.contains(c[0]) {
        assert(order.take(order.len() as int) =~= order);
        lemma_first_place(order, c[0], order.len() as int);
        let last = c.len() - 1;
        lemma_descends(files, order, c, last);
        let f = first_place(order, c[last]);
        assert(edge(files, order[f], c[0]));
        assert(order.take(f).contains(c[0]));
        lemma_first_place(order, c[0], f);
    }
}

proof fn lemma_descends(
    files: Map<Seq<char>, FileNode>,
    order: Seq<Seq<char>>,
    c: Seq<Seq<char>>,
    i: int,
)
    requires
        settled(files, order),
        is_path(files, c),
        0 <= i < c.len(),
        0 <= first_place(order, c[0]) < order.len(),
        order[first_place(order, c[0])] == c[0],
    ensures
        0 <= first_place(order, c[i]) <= first_place(order, c[0]) - i,
        order[first_place(order, c[i])] == c[i],
    decreases i,
{
    if i > 0 {
        lemma_descends(files, order, c, i - 1);
        let f = first_place(order, c[i - 1]);
        assert(edge(files, c[i - 1], c[i]));
        assert(edge(files, order[f], c[i]));
        assert(order.take(f).contains(c[i]));
        lemma_first_place(order, c[i], f);
    }
}

/// What is reported are cycles without repetition, and nothing is reported exactly where there is
/// no cycle.
pub proof fn lemma_cycles(t: Table<FileNode>)
    requires
        t.wf(),
    ensures
        all_cycles(t@, cycles_from(t, t.entries@.len() as int)),
        cycles_from(t, t.entries@.len() as int).len() == 0 <==> !exists|c: Seq<Seq<char>>|
            is_cycle(t@, c),
{
    let n = t.entries@.len() as int;
    lemma_cycles_sound(t, n);
    if cycles_from(t, n).len() > 0 {
        assert(is_cycle(t@, cycles_from(t, n)[0]));
    }
    if exists|c: Seq<Seq<char>>| is_cycle(t@, c) {
        let c = choose|c: Seq<Seq<char>>| is_cycle(t@, c);
        if c.len() > 1 {
            assert(edge(t@, c[0], c[1]));
        }
        assert(t@.dom().contains(c[0]));
        let i = t.lemma_has(c[0]);
        lemma_cycle_is_found(t, i, c);
        lemma_cycles_grow(t, i + 1, n);
    }
}

proof fn lemma_cycles_sound(t: Table<FileNode>, n: int)
    ensures
        all_cycles(t@, cycles_from(t, n)),
    decreases n,
{
    if n > 0 {
        lemma_cycles_sound(t, n - 1);
        lemma_dfs_sound(
            t@,
            t.entries@[n - 1].0@,
            Set::empty(),
            Seq::empty(),
            cycles_from(t, n - 1),
            depth_of(t),
        );
    }
}

proof fn lemma_cycles_grow(t: Table<FileNode>, m: int, n: int)
    requires
        m <= n,
    ensures
        cycles_from(t, m).len() <= cycles_from(t, n).len(),
    decreases n,
{
    if m < n && n > 0 {
        lemma_cycles_grow(t, m, n - 1);
        lemma_dfs_grows(
            t@,
            t.entries@[n - 1].0@,
            Set::empty(),
            Seq::empty(),
            cycles_from(t, n - 1),
            depth_of(t),
        );
    }
}

proof fn lemma_cycle_is_found(t: Table<FileNode>, i: int, c: Seq<Seq<char>>)
    requires
        t.wf(),
        0 <= i < t.entries@.len(),
        is_cycle(t@, c),
        c[0] == t.entries@[i].0@,
    ensures
        cycles_from(t, i + 1).len() > 0,
{
    let before = cycles_from(t, i);
    let start = t.entries@[i].0@;
    lemma_dfs_grows(t@, start, Set::empty(), Seq::empty(), before, depth_of(t));
    if cycles_from(t, i + 1).len() == 0 {
        lemma_universe(t);
        let u = all_names(t.entries@, t.entries@.len() as int).to_set();
        assert(u.difference(Set::<Seq<char>>::empty()) =~= u);
        let order = lemma_dfs_settles(
            t@,
            start,
            Set::empty(),
            Seq::empty(),
            before,
            depth_of(t),
            u,
            Seq::empty(),
        );
        lemma_settled_has_no_cycle(t@, order, c);
    }
}

impl RepoGraph {
    /// Searches below a name.
    fn dfs_detect_cycle(
        &self,
        node: &str,
        visited: &mut NameSet,
        path: &mut Vec<String>,
        cycles: &mut Vec<Vec<String>>,
        Ghost(fuel): Ghost<nat>,
        Ghost(u): Ghost<Set<Seq<char>>>,
    )
        requires
            self.wf(),
            old(visited).wf(),
            text::texts(old(path)@).no_duplicates(),
            universe(self.files@, u),
            u.contains(node@),
            u.difference(old(visited)@).len() <= fuel,
        ensures
            final(visited).wf(),
            text::texts(final(path)@) == text::texts(old(path)@),
            (final(visited)@, name_lists(final(cycles)@)) == dfs(
                self.files@,
                node@,
                old(visited)@,
                text::texts(old(path)@),
                name_lists(old(cycles)@),
                fuel,
            ),
        decreases fuel,
    {
        let key = chars_of(node);
        let ghost pv = text::texts(path@);
        let ghost cv = name_lists(cycles@);
        let ghost vv = visited@;
        for i in 0..path.len()
            invariant
                pv == text::texts(path@),
                key@ == node@,
                text::texts(old(path)@) == pv,
                pv.no_duplicates(),
                cv == name_lists(cycles@),
                cv == name_lists(old(cycles)@),
                visited.wf(),
                visited@ == vv,
                vv == old(visited)@,
                forall|j: int| 0 <= j < i ==> pv[j] != node@,
        {
            let other = chars_of(path[i].as_str());
            assert(pv[i as int] == other@);
            if same_chars(&other, &key) {
                let mut cycle: Vec<String> = Vec::new();
                for j in i..path.len()
                    invariant
                        pv == text::texts(path@),
                        i <= path@.len(),
                        text::texts(cycle@) =~= pv.subrange(i as int, j as int),
                {
                    let ghost before = text::texts(cycle@);
                    let s = owned(path[j].as_str());
                    cycle.push(s);
                    assert(text::texts(cycle@) =~= before.push(s@));
                }
                let ghost c = text::texts(cycle@);
                cycles.push(cycle);
                proof {
                    assert(pv.contains(node@));
                    assert(pv.index_of(node@) == i);
                    assert(c =~= pv.skip(i as int));
                    assert(name_lists(cycles@) =~= cv.push(c));
                }
                return ;
            }
        }
        assert(!pv.contains(node@));
        if visited.contains(node) {
            return ;
        }
        proof {
            lemma_left(u, visited@, node@);
        }
        visited.insert(node);
        path.push(owned(node));
        let ghost p = pv.push(node@);
        proof {
            assert(text::texts(path@) =~= p);
            assert(p.no_duplicates()) by {
                assert forall|i: int, j: int|
                    0 <= i < p.len() && 0 <= j < p.len() && i != j implies p[i] != p[j] by {
                    if i == pv.len() {
                        assert(pv.contains(pv[j]));
                    } else if j == pv.len() {
                        assert(pv.contains(pv[i]));
                    }
                }
            }
        }
        let ghost imports = imports_of(self.files@, node@);
        let ghost v0 = visited@;
        if let Some(data) = self.files.get(node) {
            for i in 0..data.imports.len()
                invariant
                    self.wf(),
                    fuel > 0,
                    universe(self.files@, u),
                    imports == text::texts(data.imports@),
                    forall|b: Seq<char>| imports.contains(b) ==> #[trigger] edge(
                        self.files@,
                        node@,
                        b,
                    ),
                    visited.wf(),
                    v0.subset_of(visited@),
                    u.difference(v0).len() <= fuel - 1,
                    text::texts(path@) == p,
                    p.no_duplicates(),
                    (visited@, name_lists(cycles@)) == dfs_imports(
                        self.files@,
                        imports,
                        i as nat,
                        v0,
                        p,
                        cv,
                        (fuel - 1) as nat,
                    ),
            {
                proof {
                    assert(imports.contains(imports[i as int]));
                    assert(edge(self.files@, node@, imports[i as int]));
                    assert(u.difference(visited@).subset_of(u.difference(v0)));
                    vstd::set_lib::lemma_len_subset(u.difference(visited@), u.difference(v0));
                    lemma_dfs_grows(
                        self.files@,
                        imports[i as int],
                        visited@,
                        p,
                        name_lists(cycles@),
                        (fuel - 1) as nat,
                    );
                }
                self.dfs_detect_cycle(
                    data.imports[i].as_str(),
                    visited,
                    path,
                    cycles,
                    Ghost((fuel - 1) as nat),
                    Ghost(u),
                );
            }
        }
        path.pop();
        assert(text::texts(path@) =~= p.drop_last());
        assert(p.drop_last() =~= pv);
    }

    /// The cycles of imports: those that a search from each file meets.
    pub fn circular_dependencies(&self) -> (r: Vec<Vec<String>>)
        requires
            self.wf(),
        ensures
            name_lists(r@) == cycles_from(self.files, self.files.entries@.len() as int),
            all_cycles(self.files@, name_lists(r@)),
            forall|i: int|
                0 <= i < r@.len() ==> text::texts((#[trigger] r@[i])@).no_duplicates(),
            r@.len() == 0 <==> !exists|c: Seq<Seq<char>>| is_cycle(self.files@, c),
    {
        let mut cycles: Vec<Vec<String>> = Vec::new();
        let ghost u = all_names(self.files.entries@, self.files.entries@.len() as int).to_set();
        proof {
            lemma_universe(self.files);
            lemma_cycles(self.files);
            assert(u.difference(Set::<Seq<char>>::empty()) =~= u);
        }
        assert(name_lists(cycles@) =~= Seq::<Seq<Seq<char>>>::empty());
        for i in 0..self.files.entries.len()
            invariant
                self.wf(),
                universe(self.files@, u),
                u.difference(Set::<Seq<char>>::empty()).len() <= depth_of(self.files),
                forall|k: int|
                    0 <= k < self.files.entries@.len() ==> u.contains(
                        (#[trigger] self.files.entries@[k]).0@,
                    ),
                name_lists(cycles@) == cycles_from(self.files, i as int),
        {
            let mut visited = NameSet::new();
            let mut path: Vec<String> = Vec::new();
            assert(text::texts(path@) =~= Seq::<Seq<char>>::empty());
            self.dfs_detect_cycle(
                self.files.entries[i].0.as_str(),
                &mut visited,
                &mut path,
                &mut cycles,
                Ghost(depth_of(self.files)),
                Ghost(u),
            );
        }
        proof {
            assert forall|i: int| 0 <= i < cycles@.len() implies text::texts(
                (#[trigger] cycles@[i])@,
            ).no_duplicates() by {
                assert(name_lists(cycles@)[i] == text::texts(cycles@[i]@));
            }
        }
        cycles
    }
}

// ---- Reading a source file

/// What stands before the first occurrence of a text, or all where it does not occur.
pub open spec fn before_text(s: Seq<char>, p: Seq<char>) -> Seq<char> {
    match text::seek(s, p, 0) {
        Some(i) => s.take(i),
        None => s,
    }
}

/// The second word, or nothing.
pub open spec fn second_word(s: Seq<char>) -> Seq<char> {
    let w = text::words_of(s);
    if w.len() > 1 {
        w[1]
    } else {
        Seq::empty()
    }
}

/// The text without the semicolons at its end.
pub open spec fn without_semicolons(s: Seq<char>) -> Seq<char>
    decreases s.len(),
{
    if s.len() > 0 && s.last() == ';' {
        without_semicolons(s.drop_last())
    } else {
        s
    }
}

/// The second part of a path, if it has one.
pub open spec fn second_part(s: Seq<char>) -> Option<Seq<char>> {
    match text::seek(s, "::"@, 0) {
        Some(i) => Some(before_text(s.skip(i + 2), "::"@)),
        None => None,
    }
}

/// A character of a name.
pub open spec fn name_char(c: char) -> bool {
    alphanumeric(c) || c == '_'
}

/// The names that are complete, and the one that has begun.
pub open spec fn name_run(s: Seq<char>) -> (Seq<Seq<char>>, Seq<char>)
    decreases s.len(),
{
    if s.len() == 0 {
        (Seq::empty(), Seq::empty())
    } else {
        let (done, current) = name_run(s.drop_last());
        if name_char(s.last()) {
            (done, current.push(s.last()))
        } else {
            (done.push(current), Seq::empty())
        }
    }
}

/// A name that is none of the words of a definition.
pub open spec fn is_defined(s: Seq<char>) -> bool {
    s.len() > 0 && s != "pub"@ && s != "struct"@ && s != "enum"@
}

/// The first defined name, or nothing.
pub open spec fn first_defined(v: Seq<Seq<char>>) -> Seq<char>
    decreases v.len(),
{
    if v.len() == 0 {
        Seq::empty()
    } else if is_defined(v[0]) {
        v[0]
    } else {
        first_defined(v.skip(1))
    }
}

/// What a line exports as a function: the word after `fn`, up to the first bracket.
pub open spec fn function_name(t: Seq<char>) -> Seq<char> {
    let head = t.take(text::position(t, '('));
    let w = text::words_of(head.take(text::position(head, '<')));
    let at = if text::occurs(t, "pub async fn "@, 0) {
        3int
    } else {
        2int
    };
    if w.len() > at {
        w[at]
    } else {
        Seq::empty()
    }
}

/// What a line exports as a type.
pub open spec fn defined_name(t: Seq<char>) -> Seq<char> {
    let (done, current) = name_run(t);
    first_defined(done.push(current))
}

/// What was read of a file.
#[verifier::ext_equal]
pub struct FileFacts {
    pub imports: Seq<Seq<char>>,
    pub exports: Seq<Seq<char>>,
    pub dependencies: Seq<Seq<char>>,
}

/// What is known after one more line.
pub open spec fn file_step(f: FileFacts, line: Seq<char>) -> FileFacts {
    let t = text::trimmed(line);
    let f = if text::occurs(t, "use "@, 0) {
        let name = without_semicolons(before_text(t.skip(4), "::"@));
        let f = if !text::occurs(name, "crate"@, 0) && !text::occurs(name, "self"@, 0) {
            FileFacts { dependencies: f.dependencies.push(name), ..f }
        } else {
            f
        };
        match second_part(without_semicolons(second_word(t))) {
            Some(p) => if text::holds_text(t, "crate::"@) {
                FileFacts { imports: f.imports.push("src/"@ + p + ".rs"@), ..f }
            } else {
                f
            },
            None => f,
        }
    } else {
        f
    };
    let f = if (text::occurs(t, "pub fn "@, 0) || text::occurs(t, "pub async fn "@, 0))
        && function_name(t).len() > 0 {
        FileFacts { exports: f.exports.push(function_name(t)), ..f }
    } else {
        f
    };
    if (text::occurs(t, "pub struct "@, 0) || text::occurs(t, "pub enum "@, 0)) && defined_name(
        t,
    ).len() > 0 {
        FileFacts { exports: f.exports.push(defined_name(t)), ..f }
    } else {
        f
    }
}

/// What is known after the lines.
pub open spec fn file_facts(lines: Seq<Seq<char>>) -> FileFacts
    decreases lines.len(),
{
    if lines.len() == 0 {
        FileFacts { imports: Seq::empty(), exports: Seq::empty(), dependencies: Seq::empty() }
    } else {
        file_step(file_facts(lines.drop_last()), lines.last())
    }
}

fn before(s: &[char], p: &str) -> (r: Vec<char>)
    ensures
        r@ == before_text(s@, p@),
{
    let q = chars_of(p);
    let found = find(s, &q, 0);
    proof {
        text::lemma_seek(s@, q@, 0, found);
    }
    match found {
        Some(i) => {
            assert(s@.subrange(0, i as int) =~= s@.take(i as int));
            part(s, 0, i)
        },
        None => crate::tensor::copy_slice(s),
    }
}

fn strip_semicolons(s: &[char]) -> (r: Vec<char>)
    ensures
        r@ == without_semicolons(s@),
{
    let mut n: usize = s.len();
    assert(s@.take(n as int) =~= s@);
    while n > 0 && s[n - 1] == ';'
        invariant
            n <= s@.len(),
            without_semicolons(s@) == without_semicolons(s@.take(n as int)),
        decreases n,
    {
        assert(s@.take(n as int).drop_last() =~= s@.take(n - 1));
        assert(s@.take(n as int).last() == s@[n - 1]);
        n = n - 1;
    }
    proof {
        if n > 0 {
            assert(s@.take(n as int).last() == s@[n - 1]);
        }
        assert(s@.subrange(0, n as int) =~= s@.take(n as int));
    }
    part(s, 0, n)
}

fn find_second_part(s: &[char]) -> (r: Option<Vec<char>>)
    ensures
        match r {
            Some(v) => second_part(s@) == Some(v@),
            None => second_part(s@) is None,
        },
{
    let q = chars_of("::");
    proof {
        reveal_strlit("::");
    }
    let found = find(s, &q, 0);
    proof {
        text::lemma_seek(s@, q@, 0, found);
    }
    match found {
        Some(i) => {
            assert(s@.subrange(i + 2, s@.len() as int) =~= s@.skip(i + 2));
            let len: usize = s.len();
            let rest = part(s, i + 2, len);
            Some(before(&rest, "::"))
        },
        None => None,
    }
}

fn up_to(t: &[char], c: char) -> (r: Vec<char>)
    ensures
        r@ == t@.take(text::position(t@, c)),
{
    let found = find_char(t, c);
    let i: usize = match found {
        Some(i) => i,
        None => t.len(),
    };
    proof {
        text::lemma_position(t@, c, i as int);
        assert(t@.subrange(0, i as int) =~= t@.take(i as int));
    }
    part(t, 0, i)
}

fn find_function_name(t: &[char]) -> (r: Vec<char>)
    ensures
        r@ == function_name(t@),
{
    let head = up_to(t, '(');
    let w = words(&up_to(&head, '<'));
    assert(text::views(w@).len() == w@.len());
    let at: usize = if starts_with(t, "pub async fn ") {
        3
    } else {
        2
    };
    if w.len() > at {
        assert(text::views(w@)[at as int] == w@[at as int]@);
        crate::tensor::copy_slice(&w[at])
    } else {
        Vec::new()
    }
}

fn find_type_name(t: &[char]) -> (r: Vec<char>)
    ensures
        r@ == defined_name(t@),
{
    let mut done: Vec<Vec<char>> = Vec::new();
    let mut current: Vec<char> = Vec::new();
    assert(t@.take(0) =~= Seq::<char>::empty());
    assert(text::views(done@) =~= Seq::<Seq<char>>::empty());
    for i in 0..t.len()
        invariant
            name_run(t@.take(i as int)) == (text::views(done@), current@),
    {
        proof {
            assert(t@.take(i + 1).drop_last() =~= t@.take(i as int));
            assert(t@.take(i + 1).last() == t@[i as int]);
        }
        if t[i].is_alphanumeric() || t[i] == '_' {
            current.push(t[i]);
        } else {
            let ghost before = text::views(done@);
            let ghost cur = current@;
            done.push(current);
            current = Vec::new();
            assert(text::views(done@) =~= before.push(cur));
            assert(current@ =~= Seq::<char>::empty());
        }
    }
    assert(t@.take(t@.len() as int) =~= t@);
    let ghost before = text::views(done@);
    let ghost cur = current@;
    done.push(current);
    assert(text::views(done@) =~= before.push(cur));
    let ghost all = text::views(done@);
    assert(all.skip(0) =~= all);
    for i in 0..done.len()
        invariant
            all == text::views(done@),
            defined_name(t@) == first_defined(all),
            first_defined(all) == first_defined(all.skip(i as int)),
    {
        proof {
            assert(all.skip(i as int)[0] == done@[i as int]@);
            assert(all.skip(i as int).skip(1) =~= all.skip(i + 1));
        }
        let w = &done[i];
        if w.len() > 0 && !is_text(w, "pub") && !is_text(w, "struct") && !is_text(w, "enum") {
            return crate::tensor::copy_slice(w);
        }
    }
    Vec::new()
}

fn push_name(v: &mut Vec<String>, name: &[char])
    ensures
        text::texts(final(v)@) == text::texts(old(v)@).push(name@),
{
    let ghost before = text::texts(v@);
    let s = string_of(name);
    v.push(s);
    assert(text::texts(v@) =~= before.push(s@));
}

/// What a source file imports and exports, as far as its lines tell: `use` of the own crate gives
/// imports, other `use` dependencies, and public functions, structs and enums exports.
pub fn parse_rust_file(path: &str, source: &str) -> (r: FileNode)
    ensures
        r.path@ == path@,
        (FileFacts {
            imports: text::texts(r.imports@),
            exports: text::texts(r.exports@),
            dependencies: text::texts(r.dependencies@),
        }) == file_facts(text::lines_of(source@)),
{
    let mut imports: Vec<String> = Vec::new();
    let mut exports: Vec<String> = Vec::new();
    let mut dependencies: Vec<String> = Vec::new();
    let s = chars_of(source);
    let all = lines(&s);
    let ghost lv = text::views(all@);
    proof {
        assert(lv.take(0) =~= Seq::<Seq<char>>::empty());
        assert(text::texts(imports@) =~= Seq::<Seq<char>>::empty());
        assert(text::texts(exports@) =~= Seq::<Seq<char>>::empty());
        assert(text::texts(dependencies@) =~= Seq::<Seq<char>>::empty());
    }
    for i in 0..all.len()
        invariant
            lv == text::views(all@),
            (FileFacts {
                imports: text::texts(imports@),
                exports: text::texts(exports@),
                dependencies: text::texts(dependencies@),
            }) == file_facts(lv.take(i as int)),
    {
        proof {
            assert(lv.take(i + 1).drop_last() =~= lv.take(i as int));
            assert(lv.take(i + 1).last() == all@[i as int]@);
        }
        let t = trim(&all[i]);
        if starts_with(&t, "use ") {
            proof {
                reveal_strlit("use ");
                assert(t@.subrange(4, t@.len() as int) =~= t@.skip(4));
            }
            let rest = part(&t, 4, t.len());
            let name = strip_semicolons(&before(&rest, "::"));
            if !starts_with(&name, "crate") && !starts_with(&name, "self") {
                push_name(&mut dependencies, &name);
            }
            if contains(&t, "crate::") {
                let w = words(&t);
                assert(text::views(w@).len() == w@.len());
                let second = if w.len() > 1 {
                    assert(text::views(w@)[1] == w@[1]@);
                    crate::tensor::copy_slice(&w[1])
                } else {
                    Vec::new()
                };
                assert(second@ =~= second_word(t@));
                let bare = strip_semicolons(&second);
                if let Some(p) = find_second_part(&bare) {
                    let mut file: Vec<char> = Vec::new();
                    push_text(&mut file, "src/");
                    push_chars(&mut file, &p);
                    push_text(&mut file, ".rs");
                    assert(file@ =~= "src/"@ + p@ + ".rs"@);
                    push_name(&mut imports, &file);
                }
            }
        }
        if starts_with(&t, "pub fn ") || starts_with(&t, "pub async fn ") {
            let name = find_function_name(&t);
            if name.len() > 0 {
                push_name(&mut exports, &name);
            }
        }
        if starts_with(&t, "pub struct ") || starts_with(&t, "pub enum ") {
            let name = find_type_name(&t);
            if name.len() > 0 {
                push_name(&mut exports, &name);
            }
        }
    }
    assert(lv.take(lv.len() as int) =~= lv);
    FileNode { path: owned(path), imports, exports, dependencies }
}

} // verus!
