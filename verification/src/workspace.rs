//! The working directory, held in memory: a set of named files.

use vstd::prelude::*;
use crate::lines::append_bytes;

verus! {

/// The files of a working directory, by name.
pub type Files = Map<Seq<char>, Seq<u8>>;

/// The bytes of the file `name`; nothing where there is no such file.
pub open spec fn content(files: Files, name: Seq<char>) -> Seq<u8> {
    if files.dom().contains(name) {
        files[name]
    } else {
        Seq::empty()
    }
}

/// The files after `bytes` were appended to the file `name`, which is
/// created where it does not exist.
pub open spec fn appended(files: Files, name: Seq<char>, bytes: Seq<u8>) -> Files {
    files.insert(name, content(files, name) + bytes)
}

struct FileEntry {
    name: String,
    bytes: Vec<u8>,
}

spec fn holds_at(entries: Seq<FileEntry>, name: Seq<char>, i: int) -> bool {
    0 <= i < entries.len() && entries[i].name@ == name
}

spec fn distinct(entries: Seq<FileEntry>) -> bool {
    forall|i: int, j: int| 0 <= i < j < entries.len() ==> entries[i].name@ != entries[j].name@
}

spec fn files_of(entries: Seq<FileEntry>) -> Files {
    Map::new(
        |name: Seq<char>| exists|i: int| holds_at(entries, name, i),
        |name: Seq<char>| entries[choose|i: int| holds_at(entries, name, i)].bytes@,
    )
}

proof fn lemma_lookup(entries: Seq<FileEntry>, i: int)
    requires
        distinct(entries),
        0 <= i < entries.len(),
    ensures
        files_of(entries).dom().contains(entries[i].name@),
        files_of(entries)[entries[i].name@] == entries[i].bytes@,
{
    let name = entries[i].name@;
    assert(holds_at(entries, name, i));
    let k = choose|k: int| holds_at(entries, name, k);
    assert(k == i);
}

proof fn lemma_push(entries: Seq<FileEntry>, entry: FileEntry)
    requires
        distinct(entries),
        !files_of(entries).dom().contains(entry.name@),
    ensures
        distinct(entries.push(entry)),
        files_of(entries.push(entry)) == files_of(entries).insert(entry.name@, entry.bytes@),
{
    let grown = entries.push(entry);
    assert forall|i: int, j: int| 0 <= i < j < grown.len() implies grown[i].name@
        != grown[j].name@ by {
        if j == entries.len() {
            assert(holds_at(entries, grown[i].name@, i));
        }
    }
    let want = files_of(entries).insert(entry.name@, entry.bytes@);
    assert forall|n: Seq<char>| files_of(grown).dom().contains(n) == want.dom().contains(n) by {
        if files_of(grown).dom().contains(n) {
            let k = choose|k: int| holds_at(grown, n, k);
            if k < entries.len() {
                assert(holds_at(entries, n, k));
            }
        }
        if want.dom().contains(n) {
            if n == entry.name@ {
                assert(holds_at(grown, n, entries.len() as int));
            } else {
                let k = choose|k: int| holds_at(entries, n, k);
                assert(holds_at(grown, n, k));
            }
        }
    }
    assert forall|n: Seq<char>| files_of(grown).dom().contains(n) implies files_of(grown)[n]
        == want[n] by {
        let k = choose|k: int| holds_at(grown, n, k);
        lemma_lookup(grown, k);
        if k < entries.len() {
            lemma_lookup(entries, k);
        }
    }
    assert(files_of(grown) =~= want);
}

proof fn lemma_remove(entries: Seq<FileEntry>, i: int)
    requires
        distinct(entries),
        0 <= i < entries.len(),
    ensures
        distinct(entries.remove(i)),
        files_of(entries.remove(i)) == files_of(entries).remove(entries[i].name@),
{
    let less = entries.remove(i);
    let gone = entries[i].name@;
    let want = files_of(entries).remove(gone);
    assert forall|n: Seq<char>| files_of(less).dom().contains(n) == want.dom().contains(n) by {
        if files_of(less).dom().contains(n) {
            let k = choose|k: int| holds_at(less, n, k);
            let k0 = if k < i { k } else { k + 1 };
            assert(holds_at(entries, n, k0));
        }
        if want.dom().contains(n) {
            let k0 = choose|k: int| holds_at(entries, n, k);
            let k = if k0 < i { k0 } else { k0 - 1 };
            assert(holds_at(less, n, k));
        }
    }
    assert forall|n: Seq<char>| files_of(less).dom().contains(n) implies files_of(less)[n]
        == want[n] by {
        let k = choose|k: int| holds_at(less, n, k);
        let k0 = if k < i { k } else { k + 1 };
        lemma_lookup(less, k);
        lemma_lookup(entries, k0);
    }
    assert(files_of(less) =~= want);
}

proof fn lemma_size(entries: Seq<FileEntry>)
    requires
        distinct(entries),
    ensures
        files_of(entries).dom().finite(),
        files_of(entries).dom().len() == entries.len(),
    decreases entries.len(),
{
    if entries.len() == 0 {
        assert(files_of(entries).dom() =~= Set::<Seq<char>>::empty());
    } else {
        let front = entries.drop_last();
        lemma_size(front);
        assert(!files_of(front).dom().contains(entries.last().name@)) by {
            if files_of(front).dom().contains(entries.last().name@) {
                let k = choose|k: int| holds_at(front, entries.last().name@, k);
                assert(front[k].name@ == entries[k].name@);
            }
        }
        lemma_push(front, entries.last());
        assert(front.push(entries.last()) == entries);
    }
}

fn find_entry(entries: &Vec<FileEntry>, name: &str) -> (r: Option<usize>)
    requires
        distinct(entries@),
    ensures
        match r {
            Some(i) => holds_at(entries@, name@, i as int),
            None => !files_of(entries@).dom().contains(name@),
        },
{
    let wanted = name.to_owned();
    let mut i: usize = 0;
    while i < entries.len()
        invariant
            i <= entries.len(),
            wanted@ == name@,
            forall|j: int| 0 <= j < i ==> !holds_at(entries@, name@, j),
        decreases entries.len() - i,
    {
        if entries[i].name == wanted {
            return Some(i);
        }
        i += 1;
    }
    None
}

/// A working directory in memory. No two of its files have the same name.
pub struct Workspace {
    entries: Vec<FileEntry>,
}

impl View for Workspace {
    type V = Files;

    closed spec fn view(&self) -> Files {
        files_of(self.entries@)
    }
}

impl Workspace {
    #[verifier::type_invariant]
    spec fn distinct_names(self) -> bool {
        distinct(self.entries@)
    }

    /// An empty working directory.
    pub fn new() -> (ws: Workspace)
        ensures
            ws@ == Map::<Seq<char>, Seq<u8>>::empty(),
    {
        let ws = Workspace { entries: Vec::new() };
        assert(ws@ =~= Map::<Seq<char>, Seq<u8>>::empty());
        ws
    }

    /// The number of files.
    pub fn len(&self) -> (n: usize)
        ensures
            self@.dom().finite(),
            n == self@.dom().len(),
    {
        proof {
            use_type_invariant(self);
            lemma_size(self.entries@);
        }
        self.entries.len()
    }

    /// Whether a file of this name exists.
    pub fn contains(&self, name: &str) -> (b: bool)
        ensures
            b == self@.dom().contains(name@),
    {
        proof {
            use_type_invariant(self);
        }
        find_entry(&self.entries, name).is_some()
    }

    /// The bytes of the file `name`, if it exists.
    pub fn read(&self, name: &str) -> (r: Option<&Vec<u8>>)
        ensures
            match r {
                Some(bytes) => self@.dom().contains(name@) && bytes@ == self@[name@],
                None => !self@.dom().contains(name@),
            },
    {
        proof {
            use_type_invariant(self);
        }
        match find_entry(&self.entries, name) {
            Some(i) => {
                proof {
                    lemma_lookup(self.entries@, i as int);
                }
                Some(&self.entries[i].bytes)
            },
            None => None,
        }
    }

    /// The names of the files, each once.
    pub fn names(&self) -> (out: Vec<String>)
        ensures
            out@.len() == self@.dom().len(),
            forall|i: int| 0 <= i < out@.len() ==> self@.dom().contains(#[trigger] out@[i]@),
            forall|i: int, j: int| 0 <= i < j < out@.len() ==> out@[i]@ != out@[j]@,
    {
        proof {
            use_type_invariant(self);
            lemma_size(self.entries@);
        }
        let mut out: Vec<String> = Vec::new();
        let mut i: usize = 0;
        while i < self.entries.len()
            invariant
                i <= self.entries.len(),
                out@.len() == i,
                forall|k: int| 0 <= k < i ==> #[trigger] out@[k]@ == self.entries@[k].name@,
            decreases self.entries.len() - i,
        {
            out.push(self.entries[i].name.clone());
            i += 1;
        }
        proof {
            assert forall|k: int| 0 <= k < out@.len() implies self@.dom().contains(
                #[trigger] out@[k]@,
            ) by {
                lemma_lookup(self.entries@, k);
            }
        }
        out
    }

    /// Creates the file `name` with the given bytes, or replaces its bytes.
    pub fn write(&mut self, name: &str, bytes: Vec<u8>)
        ensures
            final(self)@ == old(self)@.insert(name@, bytes@),
    {
        proof {
            use_type_invariant(&*self);
        }
        let mut entries: Vec<FileEntry> = Vec::new();
        std::mem::swap(&mut self.entries, &mut entries);
        let found = find_entry(&entries, name);
        if let Some(i) = found {
            proof {
                lemma_remove(entries@, i as int);
            }
            entries.remove(i);
        }
        let entry = FileEntry { name: name.to_owned(), bytes };
        proof {
            lemma_push(entries@, entry);
        }
        entries.push(entry);
        self.entries = entries;
        assert(self@ =~= old(self)@.insert(name@, bytes@));
    }

    /// Appends `bytes` to the file `name`, which is created where it does
    /// not exist.
    pub fn append(&mut self, name: &str, bytes: &[u8])
        ensures
            final(self)@ == appended(old(self)@, name@, bytes@),
    {
        proof {
            use_type_invariant(&*self);
        }
        let mut entries: Vec<FileEntry> = Vec::new();
        std::mem::swap(&mut self.entries, &mut entries);
        let found = find_entry(&entries, name);
        let mut entry = match found {
            Some(i) => {
                proof {
                    lemma_lookup(entries@, i as int);
                    lemma_remove(entries@, i as int);
                }
                entries.remove(i)
            },
            None => FileEntry { name: name.to_owned(), bytes: Vec::new() },
        };
        append_bytes(&mut entry.bytes, bytes);
        proof {
            lemma_push(entries@, entry);
        }
        entries.push(entry);
        self.entries = entries;
        assert(self@ =~= appended(old(self)@, name@, bytes@));
    }

    /// Removes the file `name`. Says whether it existed.
    pub fn remove(&mut self, name: &str) -> (existed: bool)
        ensures
            existed == old(self)@.dom().contains(name@),
            final(self)@ == old(self)@.remove(name@),
    {
        proof {
            use_type_invariant(&*self);
        }
        let mut entries: Vec<FileEntry> = Vec::new();
        std::mem::swap(&mut self.entries, &mut entries);
        let found = find_entry(&entries, name);
        let existed = match found {
            Some(i) => {
                proof {
                    lemma_lookup(entries@, i as int);
                    lemma_remove(entries@, i as int);
                }
                entries.remove(i);
                true
            },
            None => false,
        };
        self.entries = entries;
        assert(self@ =~= old(self)@.remove(name@));
        existed
    }
}

} // verus!
