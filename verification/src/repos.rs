//! The `.repo` files a fragment ships: file names and what they hold.

use vstd::prelude::*;

use crate::text::same_text;

verus! {

/// One `.repo` file.
#[derive(Debug, Clone)]
pub struct RepoFile {
    pub name: String,
    pub content: String,
}

/// The `.repo` files of a fragment, each under its own name.
#[derive(Debug)]
pub struct RepoFiles {
    files: Vec<RepoFile>,
}

/// The names of a list of files.
pub open spec fn file_names(files: Seq<RepoFile>) -> Seq<Seq<char>> {
    files.map_values(|f: RepoFile| f.name@)
}

/// What a list of files holds: the content under each name.
pub open spec fn file_map(files: Seq<RepoFile>) -> Map<Seq<char>, Seq<char>>
    decreases files.len(),
{
    if files.len() == 0 {
        Map::empty()
    } else {
        file_map(files.drop_last()).insert(files.last().name@, files.last().content@)
    }
}

/// A list whose names are distinct holds each file's content under its name,
/// and nothing else.
proof fn lemma_file_map(files: Seq<RepoFile>)
    requires
        file_names(files).no_duplicates(),
    ensures
        forall|name: Seq<char>| #[trigger]
            file_map(files).contains_key(name) <==> exists|i: int|
                0 <= i < files.len() && (#[trigger] files[i]).name@ == name,
        forall|i: int|
            0 <= i < files.len() ==> file_map(files)[(#[trigger] files[i]).name@]
                == files[i].content@,
    decreases files.len(),
{
    if files.len() > 0 {
        let rest = files.drop_last();
        assert(file_names(rest).no_duplicates()) by {
            assert forall|i: int, j: int|
                0 <= i < rest.len() && 0 <= j < rest.len() && i != j implies file_names(rest)[i]
                != file_names(rest)[j] by {
                assert(file_names(files)[i] == file_names(rest)[i]);
                assert(file_names(files)[j] == file_names(rest)[j]);
            }
        }
        lemma_file_map(rest);
        assert forall|name: Seq<char>| #[trigger]
            file_map(files).contains_key(name) <==> exists|i: int|
                0 <= i < files.len() && (#[trigger] files[i]).name@ == name by {
            if file_map(files).contains_key(name) {
                if name == files.last().name@ {
                    assert(files[files.len() - 1].name@ == name);
                } else {
                    assert(file_map(rest).contains_key(name));
                    let i = choose|i: int|
                        0 <= i < rest.len() && (#[trigger] rest[i]).name@ == name;
                    assert(files[i].name@ == name);
                }
            }
            if exists|i: int| 0 <= i < files.len() && (#[trigger] files[i]).name@ == name {
                let i = choose|i: int| 0 <= i < files.len() && (#[trigger] files[i]).name@ == name;
                if i < rest.len() {
                    assert(rest[i] == files[i]);
                }
            }
        }
        assert forall|i: int| 0 <= i < files.len() implies file_map(
            files,
        )[(#[trigger] files[i]).name@] == files[i].content@ by {
            if i < rest.len() {
                assert(rest[i] == files[i]);
                assert(file_names(files)[i] != file_names(files)[files.len() - 1]);
            }
        }
    }
}

/// A list whose names are distinct holds as many files as it has entries.
proof fn lemma_file_count(files: Seq<RepoFile>)
    requires
        file_names(files).no_duplicates(),
    ensures
        file_map(files).dom().finite(),
        file_map(files).len() == files.len(),
    decreases files.len(),
{
    if files.len() == 0 {
        assert(file_map(files).dom() =~= Set::<Seq<char>>::empty());
    } else {
        let rest = files.drop_last();
        assert(file_names(rest) =~= file_names(files).drop_last());
        assert(file_names(rest).no_duplicates()) by {
            assert forall|i: int, j: int|
                0 <= i < rest.len() && 0 <= j < rest.len() && i != j implies file_names(rest)[i]
                != file_names(rest)[j] by {
                assert(file_names(files)[i] == file_names(rest)[i]);
                assert(file_names(files)[j] == file_names(rest)[j]);
            }
        }
        lemma_file_count(rest);
        lemma_file_map(rest);
        assert(!file_map(rest).contains_key(files.last().name@)) by {
            if file_map(rest).contains_key(files.last().name@) {
                let k = choose|k: int|
                    0 <= k < rest.len() && (#[trigger] rest[k]).name@ == files.last().name@;
                assert(file_names(files)[k] == file_names(files)[files.len() - 1]);
            }
        }
        assert(file_map(files).dom() =~= file_map(rest).dom().insert(files.last().name@));
    }
}

impl View for RepoFiles {
    type V = Map<Seq<char>, Seq<char>>;

    closed spec fn view(&self) -> Map<Seq<char>, Seq<char>> {
        file_map(self.files@)
    }
}

impl Clone for RepoFiles {
    fn clone(&self) -> (copy: Self)
        ensures
            copy@ == self@,
    {
        let mut copy = RepoFiles::new();
        copy.extend(self);
        assert(Map::<Seq<char>, Seq<char>>::empty().union_prefer_right(self@) =~= self@);
        copy
    }
}

impl RepoFiles {
    #[verifier::type_invariant]
    spec fn well_formed(self) -> bool {
        file_names(self.files@).no_duplicates()
    }

    /// No files.
    pub fn new() -> (r: Self)
        ensures
            r@ == Map::<Seq<char>, Seq<char>>::empty(),
    {
        RepoFiles { files: Vec::new() }
    }

    /// How many files there are.
    pub fn len(&self) -> (r: usize)
        ensures
            r == self@.len(),
    {
        proof {
            use_type_invariant(self);
            lemma_file_count(self.files@);
        }
        self.files.len()
    }

    /// Whether there are no files.
    pub fn is_empty(&self) -> (r: bool)
        ensures
            r == (self@.len() == 0),
    {
        self.len() == 0
    }

    /// Whether there is a file of that name.
    pub fn contains_key(&self, name: &str) -> (r: bool)
        ensures
            r == self@.contains_key(name@),
    {
        self.get(name).is_some()
    }

    /// What the file of that name holds.
    pub fn get(&self, name: &str) -> (r: Option<&str>)
        ensures
            r is Some <==> self@.contains_key(name@),
            r matches Some(content) ==> content@ == self@[name@],
    {
        proof {
            use_type_invariant(self);
            lemma_file_map(self.files@);
        }
        for i in 0..self.files.len()
            invariant
                forall|j: int| 0 <= j < i ==> (#[trigger] self.files@[j]).name@ != name@,
                self@ == file_map(self.files@),
                forall|i: int|
                    0 <= i < self.files@.len() ==> file_map(
                        self.files@,
                    )[(#[trigger] self.files@[i]).name@] == self.files@[i].content@,
                forall|name: Seq<char>| #[trigger]
                    file_map(self.files@).contains_key(name) <==> exists|i: int|
                        0 <= i < self.files@.len() && (#[trigger] self.files@[i]).name@ == name,
        {
            if same_text(self.files[i].name.as_str(), name) {
                return Some(self.files[i].content.as_str());
            }
        }
        None
    }

    /// Puts a file in, in place of any of the same name.
    pub fn insert(&mut self, name: String, content: String)
        ensures
            final(self)@ == old(self)@.insert(name@, content@),
    {
        proof {
            use_type_invariant(&*self);
            lemma_file_map(self.files@);
        }
        let ghost before = self.files@;
        let mut files: Vec<RepoFile> = Vec::new();
        std::mem::swap(&mut files, &mut self.files);
        let count: usize = files.len();
        for i in 0..count
            invariant
                count == before.len(),
                files@ == before,
                file_names(before).no_duplicates(),
                file_map(before) == old(self)@,
                forall|j: int| 0 <= j < i ==> (#[trigger] before[j]).name@ != name@,
                forall|n: Seq<char>| #[trigger]
                    file_map(before).contains_key(n) <==> exists|i: int|
                        0 <= i < before.len() && (#[trigger] before[i]).name@ == n,
                forall|i: int|
                    0 <= i < before.len() ==> file_map(before)[(#[trigger] before[i]).name@]
                        == before[i].content@,
        {
            if same_text(files[i].name.as_str(), name.as_str()) {
                let ghost value = content@;
                files.set(i, RepoFile { name, content });
                proof {
                    assert(file_names(files@) =~= file_names(before));
                    lemma_file_map(files@);
                    lemma_replaced(before, i as int, files@[i as int]);
                }
                self.files = files;
                return ;
            }
        }
        proof {
            let file = RepoFile { name, content };
            let after = before.push(file);
            assert(file_names(after) =~= file_names(before).push(name@));
            assert(after.drop_last() =~= before);
        }
        files.push(RepoFile { name, content });
        self.files = files;
    }

    /// Puts every file of `other` in, in place of any of the same name.
    pub fn extend(&mut self, other: &RepoFiles)
        ensures
            final(self)@ == old(self)@.union_prefer_right(other@),
    {
        proof {
            use_type_invariant(other);
            lemma_file_map(other.files@);
        }
        let ghost start = self@;
        assert(other.files@.take(0) =~= Seq::<RepoFile>::empty());
        assert(start.union_prefer_right(Map::<Seq<char>, Seq<char>>::empty()) =~= start);
        for i in 0..other.files.len()
            invariant
                self@ == start.union_prefer_right(file_map(other.files@.take(i as int))),
        {
            let ghost part = other.files@.take(i + 1);
            assert(part.drop_last() =~= other.files@.take(i as int));
            assert(part.last() == other.files@[i as int]);
            self.insert(other.files[i].name.clone(), other.files[i].content.clone());
            assert(self@ =~= start.union_prefer_right(file_map(part)));
        }
        assert(other.files@.take(other.files@.len() as int) =~= other.files@);
    }

    /// Whether both hold the same files.
    pub fn same_files(&self, other: &RepoFiles) -> (r: bool)
        ensures
            r == (self@ == other@),
    {
        proof {
            use_type_invariant(self);
            use_type_invariant(other);
            lemma_file_map(self.files@);
            lemma_file_map(other.files@);
        }
        let r = self.holds_all_of(other) && other.holds_all_of(self);
        proof {
            if r {
                assert(self@ =~= other@) by {
                    assert forall|name: Seq<char>|
                        self@.contains_key(name) == other@.contains_key(name) by {}
                    assert forall|name: Seq<char>|
                        self@.contains_key(name) implies self@[name] == other@[name] by {}
                }
            }
        }
        r
    }

    /// Whether every file of `other` is held here with the same content.
    fn holds_all_of(&self, other: &RepoFiles) -> (r: bool)
        ensures
            r == forall|name: Seq<char>| #[trigger]
                other@.contains_key(name) ==> self@.contains_key(name) && self@[name]
                    == other@[name],
    {
        proof {
            use_type_invariant(other);
            lemma_file_map(other.files@);
        }
        for i in 0..other.files.len()
            invariant
                other@ == file_map(other.files@),
                forall|n: Seq<char>| #[trigger]
                    file_map(other.files@).contains_key(n) <==> exists|i: int|
                        0 <= i < other.files@.len() && (#[trigger] other.files@[i]).name@ == n,
                forall|i: int|
                    0 <= i < other.files@.len() ==> file_map(
                        other.files@,
                    )[(#[trigger] other.files@[i]).name@] == other.files@[i].content@,
                forall|j: int|
                    0 <= j < i ==> self@.contains_key((#[trigger] other.files@[j]).name@)
                        && self@[other.files@[j].name@] == other.files@[j].content@,
        {
            assert(other@.contains_key(other.files@[i as int].name@));
            match self.get(other.files[i].name.as_str()) {
                Some(content) => {
                    if !same_text(content, other.files[i].content.as_str()) {
                        return false;
                    }
                },
                None => {
                    return false;
                },
            }
        }
        true
    }
}

/// Replacing the file at one place of a list of distinct names by one of the
/// same name puts its content under that name.
proof fn lemma_replaced(files: Seq<RepoFile>, i: int, file: RepoFile)
    requires
        file_names(files).no_duplicates(),
        0 <= i < files.len(),
        file.name@ == files[i].name@,
    ensures
        file_map(files.update(i, file)) == file_map(files).insert(file.name@, file.content@),
{
    let after = files.update(i, file);
    assert(file_names(after) =~= file_names(files));
    lemma_file_map(files);
    lemma_file_map(after);
    let a = file_map(after);
    let b = file_map(files).insert(file.name@, file.content@);
    assert forall|name: Seq<char>| a.contains_key(name) == b.contains_key(name) by {
        if a.contains_key(name) {
            let k = choose|k: int| 0 <= k < after.len() && (#[trigger] after[k]).name@ == name;
            assert(files[k].name@ == name);
        }
        if b.contains_key(name) && name != file.name@ {
            let k = choose|k: int| 0 <= k < files.len() && (#[trigger] files[k]).name@ == name;
            assert(after[k].name@ == name);
        }
        assert(after[i].name@ == file.name@);
    }
    assert forall|name: Seq<char>| a.contains_key(name) implies a[name] == b[name] by {
        let k = choose|k: int| 0 <= k < after.len() && (#[trigger] after[k]).name@ == name;
        if k != i {
            assert(after[k] == files[k]);
            assert(file_names(files)[k] != file_names(files)[i]);
        }
    }
    assert(a =~= b);
}

} // verus!
