//! An in-memory file system: a root directory whose entries are kept sorted
//! by name, each one a file or a directory.
use vstd::prelude::*;
use vstd::string::*;

verus! {

// ---------------------------------------------------------------------------
// Names and their order.
// ---------------------------------------------------------------------------

/// Lexicographic order on names, character by character (by code point).
/// This is the order of Rust strings, which compare their UTF-8 bytes.
pub open spec fn name_lt(a: Seq<char>, b: Seq<char>) -> bool
    decreases a.len(),
{
    if a.len() == 0 {
        b.len() > 0
    } else if b.len() == 0 {
        false
    } else if a[0] != b[0] {
        (a[0] as int) < (b[0] as int)
    } else {
        name_lt(a.drop_first(), b.drop_first())
    }
}

/// Names are ordered lexicographically: `a` is below `b` exactly when `a`
/// is a proper prefix of `b`, or when at the first position where they
/// differ the character of `a` has the smaller code point.
pub proof fn law_name_order_lexicographic(a: Seq<char>, b: Seq<char>)
    ensures
        name_lt(a, b) <==> {
            ||| a.len() < b.len() && b.subrange(0, a.len() as int) == a
            ||| exists|k: int|
                0 <= k < a.len() && k < b.len() && a.subrange(0, k) == b.subrange(0, k) && (a[k] as int)
                    < (#[trigger] b[k] as int)
        },
    decreases a.len(),
{
    if a.len() == 0 {
        assert(b.subrange(0, 0) =~= a);
    } else if b.len() == 0 {
    } else if a[0] != b[0] {
        if a.len() < b.len() && b.subrange(0, a.len() as int) == a {
            assert(b.subrange(0, a.len() as int)[0] == b[0]);
        }
        if exists|k: int|
            0 <= k < a.len() && k < b.len() && a.subrange(0, k) == b.subrange(0, k) && (a[k] as int)
                < (#[trigger] b[k] as int) {
            let k = choose|k: int|
                0 <= k < a.len() && k < b.len() && a.subrange(0, k) == b.subrange(0, k) && (a[k] as int)
                    < (#[trigger] b[k] as int);
            if k > 0 {
                assert(a.subrange(0, k)[0] == b.subrange(0, k)[0]);
            }
        }
        if (a[0] as int) < (b[0] as int) {
            assert(a.subrange(0, 0) =~= b.subrange(0, 0));
            assert((a[0] as int) < (b[0] as int));
        }
    } else {
        let a1 = a.drop_first();
        let b1 = b.drop_first();
        law_name_order_lexicographic(a1, b1);
        // a proper prefix
        if a.len() < b.len() && b.subrange(0, a.len() as int) == a {
            assert(b1.subrange(0, a1.len() as int) =~= b.subrange(0, a.len() as int).drop_first());
        }
        if a1.len() < b1.len() && b1.subrange(0, a1.len() as int) == a1 {
            assert(b.subrange(0, a.len() as int) =~= a) by {
                assert forall|i: int| 0 <= i < a.len() implies #[trigger] b.subrange(0, a.len() as int)[i] == a[i] by {
                    if i > 0 {
                        assert(b1.subrange(0, a1.len() as int)[i - 1] == a1[i - 1]);
                    }
                }
            }
        }
        // a first difference
        if exists|k: int|
            0 <= k < a.len() && k < b.len() && a.subrange(0, k) == b.subrange(0, k) && (a[k] as int)
                < (#[trigger] b[k] as int) {
            let k = choose|k: int|
                0 <= k < a.len() && k < b.len() && a.subrange(0, k) == b.subrange(0, k) && (a[k] as int)
                    < (#[trigger] b[k] as int);
            assert(k > 0);
            assert(a1.subrange(0, k - 1) =~= a.subrange(0, k).drop_first());
            assert(b1.subrange(0, k - 1) =~= b.subrange(0, k).drop_first());
            assert(a1[k - 1] == a[k] && b1[k - 1] == b[k]);
        }
        if exists|k: int|
            0 <= k < a1.len() && k < b1.len() && a1.subrange(0, k) == b1.subrange(0, k) && (a1[k] as int)
                < (#[trigger] b1[k] as int) {
            let k = choose|k: int|
                0 <= k < a1.len() && k < b1.len() && a1.subrange(0, k) == b1.subrange(0, k) && (a1[k] as int)
                    < (#[trigger] b1[k] as int);
            assert(a.subrange(0, k + 1) =~= b.subrange(0, k + 1)) by {
                assert forall|i: int| 0 <= i < k + 1 implies #[trigger] a.subrange(0, k + 1)[i] == b.subrange(0, k + 1)[i] by {
                    if i > 0 {
                        assert(a1.subrange(0, k)[i - 1] == b1.subrange(0, k)[i - 1]);
                    }
                }
            }
            assert(a[k + 1] == a1[k] && b[k + 1] == b1[k]);
        }
    }
}

/// Two different names are ordered one way or the other.
pub proof fn lemma_name_lt_total(a: Seq<char>, b: Seq<char>)
    ensures
        a != b ==> name_lt(a, b) || name_lt(b, a),
    decreases a.len(),
{
    if a.len() > 0 && b.len() > 0 && a[0] == b[0] {
        lemma_name_lt_total(a.drop_first(), b.drop_first());
        if a.drop_first() == b.drop_first() {
            assert(a =~= seq![a[0]] + a.drop_first());
            assert(b =~= seq![b[0]] + b.drop_first());
        }
    }
    if a.len() == 0 && b.len() == 0 {
        assert(a =~= b);
    }
    if a.len() > 0 && b.len() > 0 && a[0] != b[0] {
        assert((a[0] as int) != (b[0] as int));
    }
}

/// Equal prefixes do not change the order.
proof fn lemma_name_lt_skip(a: Seq<char>, b: Seq<char>, i: int)
    requires
        0 <= i <= a.len(),
        i <= b.len(),
        a.take(i) == b.take(i),
    ensures
        name_lt(a, b) == name_lt(a.skip(i), b.skip(i)),
    decreases i,
{
    if i > 0 {
        assert(a[0] == a.take(i)[0]);
        assert(b[0] == b.take(i)[0]);
        assert(a.drop_first().take(i - 1) =~= a.take(i).drop_first());
        assert(b.drop_first().take(i - 1) =~= b.take(i).drop_first());
        lemma_name_lt_skip(a.drop_first(), b.drop_first(), i - 1);
        assert(a.drop_first().skip(i - 1) =~= a.skip(i));
        assert(b.drop_first().skip(i - 1) =~= b.skip(i));
    } else {
        assert(a.skip(0) =~= a);
        assert(b.skip(0) =~= b);
    }
}

/// Whether name `a` is below name `b`.
fn name_less(a: &str, b: &str) -> (r: bool)
    ensures
        r == name_lt(a@, b@),
{
    let la = a.unicode_len();
    let lb = b.unicode_len();
    let mut i: usize = 0;
    while i < la && i < lb
        invariant
            la == a@.len(),
            lb == b@.len(),
            0 <= i <= la,
            i <= lb,
            a@.take(i as int) == b@.take(i as int),
        decreases la - i,
    {
        let ca = a.get_char(i);
        let cb = b.get_char(i);
        if ca != cb {
            proof {
                lemma_name_lt_skip(a@, b@, i as int);
                assert(a@.skip(i as int)[0] == ca);
                assert(b@.skip(i as int)[0] == cb);
            }
            return (ca as u32) < (cb as u32);
        }
        assert(a@.take(i + 1) =~= a@.take(i as int).push(ca));
        assert(b@.take(i + 1) =~= b@.take(i as int).push(cb));
        i = i + 1;
    }
    proof {
        lemma_name_lt_skip(a@, b@, i as int);
    }
    i < lb
}

/// Whether two names are equal.
fn name_eq(a: &str, b: &str) -> (r: bool)
    ensures
        r == (a@ == b@),
{
    let la = a.unicode_len();
    let lb = b.unicode_len();
    if la != lb {
        return false;
    }
    let mut i: usize = 0;
    while i < la
        invariant
            la == a@.len(),
            lb == b@.len(),
            la == lb,
            0 <= i <= la,
            a@.take(i as int) == b@.take(i as int),
        decreases la - i,
    {
        let ca = a.get_char(i);
        let cb = b.get_char(i);
        if ca != cb {
            assert(a@[i as int] != b@[i as int]);
            return false;
        }
        assert(a@.take(i + 1) =~= a@.take(i as int).push(ca));
        assert(b@.take(i + 1) =~= b@.take(i as int).push(cb));
        i = i + 1;
    }
    assert(a@ =~= a@.take(i as int));
    assert(b@ =~= b@.take(i as int));
    true
}

// ---------------------------------------------------------------------------
// Files.
// ---------------------------------------------------------------------------

/// A file: a name and its contents.
pub struct File {
    name: String,
    data: Vec<u8>,
}

/// How `File::write` treats the old contents.
pub enum WriteMode {
    Overwrite,
    Append,
}

impl File {
    /// The file's name.
    pub closed spec fn name_view(&self) -> Seq<char> {
        self.name@
    }

    /// The file's contents.
    pub closed spec fn content(&self) -> Seq<u8> {
        self.data@
    }

    /// A file named `name` holding `content`.
    pub fn new(name: &str, content: &[u8]) -> (r: File)
        ensures
            r.name_view() == name@,
            r.content() == content@,
    {
        File { name: String::from_str(name), data: vstd::slice::slice_to_vec(content) }
    }

    /// The file's name.
    pub fn name(&self) -> (r: &str)
        ensures
            r@ == self.name_view(),
    {
        self.name.as_str()
    }

    /// The file's contents.
    pub fn read(&self) -> (r: &[u8])
        ensures
            r@ == self.content(),
    {
        self.data.as_slice()
    }

    /// Replaces the contents with `content`, or appends `content` to them.
    pub fn write(&mut self, content: &[u8], mode: WriteMode)
        ensures
            final(self).name_view() == old(self).name_view(),
            final(self).content() == match mode {
                WriteMode::Overwrite => content@,
                WriteMode::Append => old(self).content() + content@,
            },
    {
        match mode {
            WriteMode::Overwrite => {
                self.data = vstd::slice::slice_to_vec(content);
            },
            WriteMode::Append => {
                let mut i: usize = 0;
                while i < content.len()
                    invariant
                        0 <= i <= content@.len(),
                        self.name@ == old(self).name@,
                        self.data@ == old(self).data@ + content@.take(i as int),
                    decreases content@.len() - i,
                {
                    self.data.push(content[i]);
                    assert(content@.take(i + 1) =~= content@.take(i as int).push(content@[i as int]));
                    i = i + 1;
                }
                assert(content@.take(i as int) =~= content@);
            },
        }
    }
}

// ---------------------------------------------------------------------------
// Directories.
// ---------------------------------------------------------------------------

/// A node of the file system: a file or a directory.
pub enum FsNode {
    File(File),
    Directory(Directory),
}

/// A directory: a name and its children, keyed by name.
pub struct Directory {
    name: String,
    children: Vec<(String, FsNode)>,
}

/// The names of a list of entries.
pub open spec fn entry_names(es: Seq<(Seq<char>, FsNode)>) -> Seq<Seq<char>> {
    es.map_values(|e: (Seq<char>, FsNode)| e.0)
}

/// Entries sorted by strictly increasing name, hence without duplicates.
pub open spec fn entries_sorted(es: Seq<(Seq<char>, FsNode)>) -> bool {
    &&& forall|i: int| 0 <= i < es.len() - 1 ==> name_lt(#[trigger] es[i].0, es[i + 1].0)
    &&& forall|i: int, j: int| 0 <= i < j < es.len() ==> #[trigger] es[i].0 != #[trigger] es[j].0
}

/// The node stored under `name`, if any.
pub open spec fn lookup(es: Seq<(Seq<char>, FsNode)>, name: Seq<char>) -> Option<FsNode> {
    if exists|i: int| 0 <= i < es.len() && #[trigger] es[i].0 == name {
        Some(es[choose|i: int| 0 <= i < es.len() && #[trigger] es[i].0 == name].1)
    } else {
        None
    }
}

/// `j` is where an entry named `name` goes to keep the entries sorted.
pub open spec fn is_insertion_point(es: Seq<(Seq<char>, FsNode)>, name: Seq<char>, j: int) -> bool {
    &&& 0 <= j <= es.len()
    &&& forall|i: int| 0 <= i < j ==> !name_lt(name, #[trigger] es[i].0)
    &&& j < es.len() ==> name_lt(name, es[j].0)
}

/// Where an entry named `name` goes to keep the entries sorted.
pub open spec fn insertion_point(es: Seq<(Seq<char>, FsNode)>, name: Seq<char>) -> int {
    choose|j: int| is_insertion_point(es, name, j)
}

/// The entries after storing `node` under `name`: it replaces the node with
/// that name, or is inserted in name order.
pub open spec fn entries_insert(es: Seq<(Seq<char>, FsNode)>, name: Seq<char>, node: FsNode) -> Seq<(Seq<char>, FsNode)> {
    if exists|i: int| 0 <= i < es.len() && #[trigger] es[i].0 == name {
        es.update(choose|i: int| 0 <= i < es.len() && #[trigger] es[i].0 == name, (name, node))
    } else {
        es.insert(insertion_point(es, name), (name, node))
    }
}

/// The name a node carries.
pub open spec fn node_name(n: FsNode) -> Seq<char> {
    match n {
        FsNode::File(f) => f.name_view(),
        FsNode::Directory(d) => d.name_view(),
    }
}

/// Children seen through the views of their names.
pub open spec fn entries_of(cs: Seq<(String, FsNode)>) -> Seq<(Seq<char>, FsNode)> {
    cs.map_values(|e: (String, FsNode)| (e.0@, e.1))
}

/// Replacing the node of a child, under the same key, keeps the children
/// sorted and changes only that entry.
proof fn lemma_replace_node_keeps_sorted(cs: Seq<(String, FsNode)>, i: int)
    requires
        entries_sorted(entries_of(cs)),
        0 <= i < cs.len(),
    ensures
        forall|n: FsNode|
            #![trigger cs.update(i, (cs[i].0, n))]
            entries_sorted(entries_of(cs.update(i, (cs[i].0, n))))
                && entries_of(cs.update(i, (cs[i].0, n))) == entries_of(cs).update(i, (cs[i].0@, n)),
{
    let es = entries_of(cs);
    assert forall|n: FsNode| #![trigger cs.update(i, (cs[i].0, n))]
        entries_sorted(entries_of(cs.update(i, (cs[i].0, n))))
            && entries_of(cs.update(i, (cs[i].0, n))) == es.update(i, (cs[i].0@, n)) by {
        let nes = entries_of(cs.update(i, (cs[i].0, n)));
        assert(nes =~= es.update(i, (cs[i].0@, n)));
        assert forall|a: int, b: int| 0 <= a < b < nes.len() implies #[trigger] nes[a].0 != #[trigger] nes[b].0 by {
            assert(es[a].0 != es[b].0);
        }
        assert forall|a: int| 0 <= a < nes.len() - 1 implies name_lt(#[trigger] nes[a].0, nes[a + 1].0) by {
            assert(name_lt(es[a].0, es[a + 1].0));
        }
    }
}

impl Directory {
    /// The directory's name.
    pub closed spec fn name_view(&self) -> Seq<char> {
        self.name@
    }

    /// The children, in the order they are kept.
    pub closed spec fn entries(&self) -> Seq<(Seq<char>, FsNode)> {
        entries_of(self.children@)
    }

    /// The children are sorted by name.
    pub open spec fn wf(&self) -> bool {
        entries_sorted(self.entries())
    }

    /// An empty directory named `name`.
    pub fn new(name: &str) -> (r: Directory)
        ensures
            r.name_view() == name@,
            r.entries() == Seq::<(Seq<char>, FsNode)>::empty(),
            r.wf(),
    {
        let r = Directory { name: String::from_str(name), children: Vec::new() };
        assert(r.entries() =~= Seq::<(Seq<char>, FsNode)>::empty());
        r
    }

    /// The directory's name.
    pub fn name(&self) -> (r: &str)
        ensures
            r@ == self.name_view(),
    {
        self.name.as_str()
    }

    /// Index of the child named `name`, or the number of children.
    fn find(&self, name: &str) -> (r: usize)
        requires
            self.wf(),
        ensures
            r <= self.entries().len(),
            r < self.entries().len() ==> self.entries()[r as int].0 == name@,
            r == self.entries().len() ==> forall|i: int|
                0 <= i < self.entries().len() ==> #[trigger] self.entries()[i].0 != name@,
    {
        let mut i: usize = 0;
        while i < self.children.len()
            invariant
                0 <= i <= self.children@.len(),
                self.entries().len() == self.children@.len(),
                forall|k: int| 0 <= k < i ==> #[trigger] self.entries()[k].0 != name@,
            decreases self.children@.len() - i,
        {
            if name_eq(self.children[i].0.as_str(), name) {
                return i;
            }
            i = i + 1;
        }
        i
    }

    /// The child named `name`, if any.
    pub fn get_child(&self, name: &str) -> (r: Option<&FsNode>)
        requires
            self.wf(),
        ensures
            match r {
                Some(n) => lookup(self.entries(), name@) == Some(*n),
                None => lookup(self.entries(), name@) is None,
            },
    {
        let i = self.find(name);
        if i < self.children.len() {
            proof {
                self.lemma_lookup_at(name@, i as int);
            }
            Some(&self.children[i].1)
        } else {
            None
        }
    }

    /// The child named `name`, if any, for changing it in place. The child
    /// keeps its key whatever it is changed into.
    pub fn get_child_mut(&mut self, name: &str) -> (r: Option<&mut FsNode>)
        requires
            old(self).wf(),
        ensures
            match r {
                Some(n) => {
                    &&& lookup(old(self).entries(), name@) == Some(*n)
                    &&& exists|i: int|
                        0 <= i < old(self).entries().len() && old(self).entries()[i].0 == name@
                            && final(self).entries() == old(self).entries().update(
                            i,
                            (name@, *final(n)),
                        )
                },
                None => {
                    &&& lookup(old(self).entries(), name@) is None
                    &&& final(self).entries() == old(self).entries()
                },
            },
            final(self).name_view() == old(self).name_view(),
            final(self).wf(),
    {
        let i = self.find(name);
        if i < self.children.len() {
            proof {
                self.lemma_lookup_at(name@, i as int);
            }
            proof {
                lemma_replace_node_keeps_sorted(self.children@, i as int);
            }
            let entry = &mut self.children[i];
            let node = &mut entry.1;
            Some(node)
        } else {
            None
        }
    }

    /// With sorted entries, the lookup of the name at index `i` finds entry `i`.
    proof fn lemma_lookup_at(&self, name: Seq<char>, i: int)
        requires
            self.wf(),
            0 <= i < self.entries().len(),
            self.entries()[i].0 == name,
        ensures
            lookup(self.entries(), name) == Some(self.entries()[i].1),
            entries_insert(self.entries(), name, self.entries()[i].1) == self.entries(),
    {
        let es = self.entries();
        let k = choose|k: int| 0 <= k < es.len() && #[trigger] es[k].0 == name;
        if k != i {
            if k < i {
                assert(es[k].0 != es[i].0);
            } else {
                assert(es[i].0 != es[k].0);
            }
        }
        assert(es.update(i, (name, es[i].1)) =~= es);
    }

    /// Stores `node` under its own name: it replaces the child of that name,
    /// or joins the children in name order.
    pub fn add_child(&mut self, node: FsNode)
        requires
            old(self).wf(),
        ensures
            final(self).wf(),
            final(self).name_view() == old(self).name_view(),
            final(self).entries() == entries_insert(old(self).entries(), node_name(node), node),
    {
        let key = match &node {
            FsNode::File(f) => String::from_str(f.name()),
            FsNode::Directory(d) => String::from_str(d.name()),
        };
        let ghost es = self.entries();
        let i = self.find(key.as_str());
        if i < self.children.len() {
            proof {
                self.lemma_lookup_at(key@, i as int);
            }
            self.children.set(i, (key, node));
            proof {
                let nes = self.entries();
                assert(nes =~= es.update(i as int, (key@, node)));
                assert forall|a: int, b: int| 0 <= a < b < nes.len() implies #[trigger] nes[a].0 != #[trigger] nes[b].0 by {
                    assert(es[a].0 != es[b].0);
                }
                assert forall|a: int| 0 <= a < nes.len() - 1 implies name_lt(#[trigger] nes[a].0, nes[a + 1].0) by {
                    assert(name_lt(es[a].0, es[a + 1].0));
                }
            }
        } else {
            let j = self.insertion_index(key.as_str());
            self.children.insert(j, (key, node));
            proof {
                let nes = self.entries();
                let e = (key@, node);
                assert(nes =~= es.insert(j as int, e));
                assert(!(exists|k: int| 0 <= k < es.len() && #[trigger] es[k].0 == key@));
                let p = insertion_point(es, key@);
                assert(is_insertion_point(es, key@, p));
                if p < j {
                    assert(!name_lt(key@, es[p].0));
                } else if p > j {
                    assert(!name_lt(key@, es[j as int].0));
                }
                assert forall|a: int, b: int| 0 <= a < b < nes.len() implies #[trigger] nes[a].0 != #[trigger] nes[b].0 by {
                    if a < j && b < j {
                        assert(es[a].0 != es[b].0);
                    } else if a < j && b > j {
                        assert(es[a].0 != es[b - 1].0);
                    } else if a > j {
                        assert(es[a - 1].0 != es[b - 1].0);
                    } else if a == j {
                        assert(es[b - 1].0 != key@);
                    } else {
                        assert(es[a].0 != key@);
                    }
                }
                assert forall|a: int| 0 <= a < nes.len() - 1 implies name_lt(#[trigger] nes[a].0, nes[a + 1].0) by {
                    if a < j - 1 {
                        assert(name_lt(es[a].0, es[a + 1].0));
                    } else if a == j - 1 {
                        lemma_name_lt_total(es[a].0, key@);
                        assert(!name_lt(key@, es[a].0));
                        assert(es[a].0 != key@);
                    } else if a == j {
                        assert(name_lt(key@, es[j as int].0));
                    } else {
                        assert(name_lt(es[a - 1].0, es[a].0));
                    }
                }
            }
        }
    }

    /// Index of the first child whose name is above `name`, or the number of
    /// children.
    fn insertion_index(&self, name: &str) -> (r: usize)
        ensures
            is_insertion_point(self.entries(), name@, r as int),
    {
        let mut i: usize = 0;
        while i < self.children.len()
            invariant
                0 <= i <= self.children@.len(),
                self.entries().len() == self.children@.len(),
                forall|k: int| 0 <= k < i ==> !name_lt(name@, #[trigger] self.entries()[k].0),
            decreases self.children@.len() - i,
        {
            if name_less(name, self.children[i].0.as_str()) {
                return i;
            }
            i = i + 1;
        }
        i
    }
}

/// Without duplicate names, the lookup of the name at index `i` finds entry
/// `i`.
pub proof fn lemma_lookup_unique(es: Seq<(Seq<char>, FsNode)>, i: int)
    requires
        forall|a: int, b: int| 0 <= a < b < es.len() ==> #[trigger] es[a].0 != #[trigger] es[b].0,
        0 <= i < es.len(),
    ensures
        lookup(es, es[i].0) == Some(es[i].1),
{
    let k = choose|k: int| 0 <= k < es.len() && #[trigger] es[k].0 == es[i].0;
    if k < i {
        assert(es[k].0 != es[i].0);
    } else if k > i {
        assert(es[i].0 != es[k].0);
    }
}

/// Storing a node under a name: looking that name up gives the node back,
/// and every other name looks up what it did before.
pub proof fn law_lookup_after_insert(es: Seq<(Seq<char>, FsNode)>, name: Seq<char>, node: FsNode, other: Seq<char>)
    requires
        entries_sorted(es),
    ensures
        lookup(entries_insert(es, name, node), name) == Some(node),
        other != name ==> lookup(entries_insert(es, name, node), other) == lookup(es, other),
{
    let nes = entries_insert(es, name, node);
    if exists|i: int| 0 <= i < es.len() && #[trigger] es[i].0 == name {
        let k = choose|i: int| 0 <= i < es.len() && #[trigger] es[i].0 == name;
        assert(nes == es.update(k, (name, node)));
        assert forall|a: int, b: int| 0 <= a < b < nes.len() implies #[trigger] nes[a].0 != #[trigger] nes[b].0 by {
            assert(es[a].0 != es[b].0);
        }
        lemma_lookup_unique(nes, k);
        if other != name {
            if exists|j: int| 0 <= j < es.len() && #[trigger] es[j].0 == other {
                let j = choose|j: int| 0 <= j < es.len() && #[trigger] es[j].0 == other;
                lemma_lookup_unique(es, j);
                lemma_lookup_unique(nes, j);
            } else {
                assert forall|j: int| 0 <= j < nes.len() implies #[trigger] nes[j].0 != other by {
                    if j != k {
                        assert(es[j].0 != other);
                    }
                }
            }
        }
    } else {
        let p = insertion_point(es, name);
        assert(exists|j: int| is_insertion_point(es, name, j)) by {
            lemma_insertion_point_exists(es, name, 0);
        }
        assert(nes == es.insert(p, (name, node)));
        assert forall|a: int, b: int| 0 <= a < b < nes.len() implies #[trigger] nes[a].0 != #[trigger] nes[b].0 by {
            if a < p && b < p {
                assert(es[a].0 != es[b].0);
            } else if a < p && b > p {
                assert(es[a].0 != es[b - 1].0);
            } else if a > p {
                assert(es[a - 1].0 != es[b - 1].0);
            } else if a == p {
                assert(es[b - 1].0 != name);
            } else {
                assert(es[a].0 != name);
            }
        }
        assert(nes[p] == (name, node));
        lemma_lookup_unique(nes, p);
        if other != name {
            if exists|j: int| 0 <= j < es.len() && #[trigger] es[j].0 == other {
                let j = choose|j: int| 0 <= j < es.len() && #[trigger] es[j].0 == other;
                lemma_lookup_unique(es, j);
                let jj = if j < p { j } else { j + 1 };
                assert(nes[jj] == es[j]);
                lemma_lookup_unique(nes, jj);
            } else {
                assert forall|j: int| 0 <= j < nes.len() implies #[trigger] nes[j].0 != other by {
                    if j < p {
                        assert(es[j].0 != other);
                    } else if j > p {
                        assert(es[j - 1].0 != other);
                    }
                }
            }
        }
    }
}

/// An insertion point exists: the first index at or after `from` whose name
/// is above `name`, or the end.
proof fn lemma_insertion_point_exists(es: Seq<(Seq<char>, FsNode)>, name: Seq<char>, from: int)
    requires
        0 <= from <= es.len(),
        forall|i: int| 0 <= i < from ==> !name_lt(name, #[trigger] es[i].0),
    ensures
        exists|j: int| is_insertion_point(es, name, j),
    decreases es.len() - from,
{
    if from == es.len() || name_lt(name, es[from].0) {
        assert(is_insertion_point(es, name, from));
    } else {
        lemma_insertion_point_exists(es, name, from + 1);
    }
}

/// Overwriting the node under a present name: looking that name up gives
/// the new node, and every other name looks up what it did before.
pub proof fn law_lookup_after_update(es: Seq<(Seq<char>, FsNode)>, i: int, node: FsNode, other: Seq<char>)
    requires
        entries_sorted(es),
        0 <= i < es.len(),
    ensures
        lookup(es.update(i, (es[i].0, node)), es[i].0) == Some(node),
        other != es[i].0 ==> lookup(es.update(i, (es[i].0, node)), other) == lookup(es, other),
{
    let nes = es.update(i, (es[i].0, node));
    assert forall|a: int, b: int| 0 <= a < b < nes.len() implies #[trigger] nes[a].0 != #[trigger] nes[b].0 by {
        assert(es[a].0 != es[b].0);
    }
    lemma_lookup_unique(nes, i);
    if other != es[i].0 {
        if exists|j: int| 0 <= j < es.len() && #[trigger] es[j].0 == other {
            let j = choose|j: int| 0 <= j < es.len() && #[trigger] es[j].0 == other;
            lemma_lookup_unique(es, j);
            lemma_lookup_unique(nes, j);
        } else {
            assert forall|j: int| 0 <= j < nes.len() implies #[trigger] nes[j].0 != other by {
                if j != i {
                    assert(es[j].0 != other);
                }
            }
        }
    }
}

// ---------------------------------------------------------------------------
// The file system.
// ---------------------------------------------------------------------------

/// The files among a list of entries, in order.
pub open spec fn files_of(es: Seq<(Seq<char>, FsNode)>) -> Seq<File>
    decreases es.len(),
{
    if es.len() == 0 {
        Seq::empty()
    } else {
        let rest = files_of(es.drop_last());
        match es.last().1 {
            FsNode::File(f) => rest.push(f),
            FsNode::Directory(_) => rest,
        }
    }
}

/// A file system with a single root directory named `root`.
pub struct FileSystem {
    root: Directory,
}

impl FileSystem {
    /// The entries of the root directory, sorted by name.
    pub closed spec fn entries(&self) -> Seq<(Seq<char>, FsNode)> {
        self.root.entries()
    }

    /// The root directory's entries are sorted by name, so no name occurs
    /// twice.
    pub open spec fn wf(&self) -> bool {
        entries_sorted(self.entries())
    }

    /// The root directory.
    pub closed spec fn root_view(&self) -> Directory {
        self.root
    }

    /// An empty file system.
    pub fn new() -> (r: FileSystem)
        ensures
            r.wf(),
            r.entries() == Seq::<(Seq<char>, FsNode)>::empty(),
            r.root_view().name_view() == "root"@,
    {
        FileSystem { root: Directory::new("root") }
    }

    /// Creates a file named `name` holding `content` in the root directory,
    /// replacing any node of that name.
    pub fn create_file(&mut self, name: &str, content: &[u8])
        requires
            old(self).wf(),
        ensures
            final(self).wf(),
            exists|f: File|
                f.name_view() == name@ && f.content() == content@ && final(self).entries()
                    == entries_insert(old(self).entries(), name@, FsNode::File(f)),
            lookup(final(self).entries(), name@) matches Some(FsNode::File(f)) && f.content() == content@,
            forall|other: Seq<char>|
                other != name@ ==> #[trigger] lookup(final(self).entries(), other) == lookup(old(self).entries(), other),
    {
        let file = File::new(name, content);
        self.root.add_child(FsNode::File(file));
        proof {
            let f = choose|f: File|
                f.name_view() == name@ && f.content() == content@ && self.entries()
                    == entries_insert(old(self).entries(), name@, FsNode::File(f));
            law_lookup_after_insert(old(self).entries(), name@, FsNode::File(f), name@);
            assert forall|other: Seq<char>|
                other != name@ implies #[trigger] lookup(self.entries(), other) == lookup(old(self).entries(), other) by {
                law_lookup_after_insert(old(self).entries(), name@, FsNode::File(f), other);
            }
        }
    }

    /// The contents of the file named `name` in the root directory; `None`
    /// when there is no such node or it is a directory.
    pub fn read_file(&self, name: &str) -> (r: Option<&[u8]>)
        requires
            self.wf(),
        ensures
            match lookup(self.entries(), name@) {
                Some(FsNode::File(f)) => r matches Some(c) && c@ == f.content(),
                _ => r is None,
            },
    {
        if let Some(FsNode::File(f)) = self.root.get_child(name) {
            Some(f.read())
        } else {
            None
        }
    }

    /// Overwrites the file named `name` in the root directory with `content`.
    /// Returns `false`, changing nothing, when there is no such node or it is a
    /// directory.
    pub fn write_file(&mut self, name: &str, content: &[u8]) -> (r: bool)
        requires
            old(self).wf(),
        ensures
            final(self).wf(),
            match lookup(old(self).entries(), name@) {
                Some(FsNode::File(f)) => {
                    &&& r
                    &&& exists|i: int, g: File|
                        0 <= i < old(self).entries().len() && old(self).entries()[i].0 == name@
                            && g.name_view() == f.name_view() && g.content() == content@
                            && final(self).entries() == old(self).entries().update(
                            i,
                            (name@, FsNode::File(g)),
                        )
                },
                _ => !r && final(self).entries() == old(self).entries(),
            },
            r ==> (lookup(final(self).entries(), name@) matches Some(FsNode::File(g)) && g.content() == content@),
            forall|other: Seq<char>|
                other != name@ ==> #[trigger] lookup(final(self).entries(), other) == lookup(old(self).entries(), other),
    {
        let r = self.write_file_at(name, content);
        proof {
            if r {
                let (i, g) = choose|i: int, g: File|
                    0 <= i < old(self).entries().len() && old(self).entries()[i].0 == name@
                        && g.content() == content@
                        && self.entries() == old(self).entries().update(i, (name@, FsNode::File(g)));
                law_lookup_after_update(old(self).entries(), i, FsNode::File(g), name@);
                assert forall|other: Seq<char>|
                    other != name@ implies #[trigger] lookup(self.entries(), other) == lookup(old(self).entries(), other) by {
                    law_lookup_after_update(old(self).entries(), i, FsNode::File(g), other);
                }
            }
        }
        r
    }

    /// Overwrites the file named `name`, as `write_file` does, stating the
    /// change as an update of one entry.
    fn write_file_at(&mut self, name: &str, content: &[u8]) -> (r: bool)
        requires
            old(self).wf(),
        ensures
            final(self).wf(),
            match lookup(old(self).entries(), name@) {
                Some(FsNode::File(f)) => {
                    &&& r
                    &&& exists|i: int, g: File|
                        0 <= i < old(self).entries().len() && old(self).entries()[i].0 == name@
                            && g.name_view() == f.name_view() && g.content() == content@
                            && final(self).entries() == old(self).entries().update(
                            i,
                            (name@, FsNode::File(g)),
                        )
                },
                _ => !r && final(self).entries() == old(self).entries(),
            },
    {
        match self.root.get_child_mut(name) {
            Some(node) => match node {
                FsNode::File(f) => {
                    f.write(content, WriteMode::Overwrite);
                    true
                },
                _ => false,
            },
            None => false,
        }
    }

    /// The names in the root directory, in name order.
    pub fn list_root(&self) -> (r: Vec<&str>)
        ensures
            r@.len() == self.entries().len(),
            forall|i: int| 0 <= i < r@.len() ==> (#[trigger] r@[i])@ == self.entries()[i].0,
    {
        let mut r: Vec<&str> = Vec::new();
        let mut i: usize = 0;
        while i < self.root.children.len()
            invariant
                0 <= i <= self.root.children@.len(),
                self.entries().len() == self.root.children@.len(),
                r@.len() == i,
                forall|k: int| 0 <= k < i ==> (#[trigger] r@[k])@ == self.entries()[k].0,
            decreases self.root.children@.len() - i,
        {
            r.push(self.root.children[i].0.as_str());
            i = i + 1;
        }
        r
    }

    /// The root directory.
    pub fn root(&self) -> (r: &Directory)
        ensures
            *r == self.root_view(),
            r.entries() == self.entries(),
    {
        &self.root
    }

    /// The files of the root directory, in name order.
    pub fn iter(&self) -> (r: Vec<&File>)
        ensures
            r@.len() == files_of(self.entries()).len(),
            forall|i: int| 0 <= i < r@.len() ==> *(#[trigger] r@[i]) == files_of(self.entries())[i],
    {
        let ghost es = self.entries();
        let mut r: Vec<&File> = Vec::new();
        let mut i: usize = 0;
        while i < self.root.children.len()
            invariant
                0 <= i <= self.root.children@.len(),
                es == self.entries(),
                es.len() == self.root.children@.len(),
                r@.len() == files_of(es.take(i as int)).len(),
                forall|k: int| 0 <= k < r@.len() ==> *(#[trigger] r@[k]) == files_of(es.take(i as int))[k],
            decreases self.root.children@.len() - i,
        {
            assert(es.take(i + 1).drop_last() =~= es.take(i as int));
            assert(es.take(i + 1).last() == es[i as int]);
            match &self.root.children[i].1 {
                FsNode::File(f) => {
                    r.push(f);
                },
                FsNode::Directory(_) => {},
            }
            i = i + 1;
        }
        assert(es.take(i as int) =~= es);
        r
    }
}

} // verus!
