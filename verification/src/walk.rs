//! Walking a tree of files and folders into a stream of candidates.
//!
//! The walker reads nothing itself. It is handed the entries of each folder
//! that it asks for, decides which of them it passes over, which it hands out
//! and which it descends into, and keeps the order in which they are visited.
//!
//! Its caller takes one visit after the other with `next`. Where a visit says
//! `list`, the caller reads that folder and hands its entries to `enter`; a
//! folder that cannot be read has no entries. Where a visit says `emit`, the
//! entry is a candidate. Nothing is read before it is asked for, so a caller
//! that stops early has read only what it has seen.

use vstd::prelude::*;
use vstd::string::StrSliceExecFns;

verus! {

/// What a walk leaves out.
#[derive(Clone, Copy, Debug, PartialEq, Eq, Structural)]
pub struct TraversalPolicy {
    /// Visit entries whose name marks them as hidden.
    pub include_hidden: bool,
    /// Visit entries that an ignore rule matches.
    pub include_ignored: bool,
    /// Hand out folders as well as files.
    pub include_folders: bool,
}

/// One file or folder, as it was found.
#[derive(Clone, Debug)]
pub struct Entry<P> {
    /// Where the entry is.
    pub path: P,
    /// The entry's own name: the last segment of its path.
    pub name: String,
    /// Whether the entry is a folder.
    pub folder: bool,
    /// Whether an ignore rule matches the entry.
    pub ignored: bool,
}

/// What to do with the entry that a walk has arrived at.
#[derive(Clone, Debug)]
pub struct Visit<P> {
    pub entry: Entry<P>,
    /// The entry is a candidate: hand its path out.
    pub emit: bool,
    /// The entry is a folder: read its entries and let the walker `enter` them.
    pub list: bool,
}

/// A name is hidden when it begins with a dot.
pub open spec fn hidden_name(name: Seq<char>) -> bool {
    name.len() > 0 && name[0] == '.'
}

/// Whether `name` is the name of a hidden file or folder.
pub fn is_hidden(name: &str) -> (hidden: bool)
    ensures
        hidden == hidden_name(name@),
{
    !name.is_empty() && name.get_char(0) == '.'
}

impl TraversalPolicy {
    /// The walk visits `entry` and, where it is a folder, what lies below it.
    pub open spec fn admits_spec<P>(&self, entry: &Entry<P>) -> bool {
        &&& self.include_hidden || !hidden_name(entry.name@)
        &&& self.include_ignored || !entry.ignored
    }

    /// Whether the walk visits `entry`: its name is not hidden or hidden
    /// entries are included, and no ignore rule matches it or ignored entries
    /// are included.
    #[verifier::when_used_as_spec(admits_spec)]
    pub fn admits<P>(&self, entry: &Entry<P>) -> (admitted: bool)
        ensures
            admitted == self.admits_spec(entry),
    {
        (self.include_hidden || !is_hidden(entry.name.as_str())) && (self.include_ignored
            || !entry.ignored)
    }

    /// What the walk does with an entry that it visits.
    pub open spec fn visit_of<P>(self, entry: Entry<P>) -> Visit<P> {
        Visit { entry, emit: self.include_folders || !entry.folder, list: entry.folder }
    }

    /// The test that `admits` makes, as a function of the entry.
    pub open spec fn admission<P>(self) -> spec_fn(Entry<P>) -> bool {
        |entry: Entry<P>| self.admits(&entry)
    }

    /// Those of `entries` that the walk visits, in their order.
    pub open spec fn admitted<P>(self, entries: Seq<Entry<P>>) -> Seq<Entry<P>> {
        entries.filter(self.admission())
    }
}

/// The state of a walk: its policy and the entries that wait to be visited,
/// the next of them first.
pub struct WalkerView<P> {
    pub policy: TraversalPolicy,
    pub queue: Seq<Entry<P>>,
}

impl<P> WalkerView<P> {
    /// The walk that has nothing to visit.
    pub open spec fn idle(policy: TraversalPolicy) -> Self {
        WalkerView { policy, queue: Seq::empty() }
    }

    /// The state after `entries` were entered: those that the policy admits
    /// are visited next, in their order, before all that waited already.
    pub open spec fn entered(self, entries: Seq<Entry<P>>) -> Self {
        WalkerView { policy: self.policy, queue: self.policy.admitted(entries) + self.queue }
    }

    /// The visit that comes next, if any entry waits.
    pub open spec fn visit(self) -> Option<Visit<P>> {
        if self.queue.len() == 0 {
            None
        } else {
            Some(self.policy.visit_of(self.queue[0]))
        }
    }

    /// The state after the next visit was taken.
    pub open spec fn advanced(self) -> Self {
        if self.queue.len() == 0 {
            self
        } else {
            WalkerView { policy: self.policy, queue: self.queue.drop_first() }
        }
    }
}

/// A walk in progress.
pub struct Walker<P> {
    policy: TraversalPolicy,
    /// The entries that wait, the next of them last.
    pending: Vec<Entry<P>>,
}

impl<P> View for Walker<P> {
    type V = WalkerView<P>;

    closed spec fn view(&self) -> WalkerView<P> {
        WalkerView { policy: self.policy, queue: self.pending@.reverse() }
    }
}

/// Reversing puts what was pushed last in front.
proof fn lemma_reverse_push<A>(s: Seq<A>, a: A)
    ensures
        s.push(a).reverse() == seq![a] + s.reverse(),
{
    assert(s.push(a).reverse() =~= seq![a] + s.reverse());
}

impl<P> Walker<P> {
    /// Starts a walk at `roots`, which are visited in their order.
    pub fn new(policy: TraversalPolicy, roots: Vec<Entry<P>>) -> (walker: Self)
        ensures
            walker@ == WalkerView::idle(policy).entered(roots@),
    {
        let mut walker = Walker { policy, pending: Vec::new() };
        assert(walker@ == WalkerView::<P>::idle(policy)) by {
            assert(walker.pending@.reverse() =~= Seq::<Entry<P>>::empty());
        }
        walker.enter(roots);
        walker
    }

    /// The policy that the walk was started with.
    pub fn policy(&self) -> (policy: TraversalPolicy)
        ensures
            policy == self@.policy,
    {
        self.policy
    }

    /// Takes the entries of the folder that the last visit asked for. Those
    /// that the policy admits are visited next, in their order; the others
    /// are dropped with all that lies below them.
    pub fn enter(&mut self, entries: Vec<Entry<P>>)
        ensures
            final(self)@ == old(self)@.entered(entries@),
    {
        let mut rest = entries;
        let ghost policy = self.policy;
        proof {
            assert(entries@.skip(entries@.len() as int) =~= Seq::<Entry<P>>::empty());
            assert(policy.admitted(Seq::<Entry<P>>::empty()) =~= Seq::<Entry<P>>::empty()) by {
                reveal(Seq::filter);
            }
            assert(policy.admitted(Seq::<Entry<P>>::empty()) + old(self)@.queue =~= old(
                self,
            )@.queue);
        }
        while rest.len() > 0
            invariant
                self.policy == policy,
                policy == old(self).policy,
                rest@ == entries@.take(rest@.len() as int),
                rest@.len() <= entries@.len(),
                self@.queue == policy.admitted(entries@.skip(rest@.len() as int)) + old(
                    self,
                )@.queue,
            decreases rest.len(),
        {
            let ghost before = self@.queue;
            let ghost done = entries@.skip(rest@.len() as int);
            let entry = rest.pop().unwrap();
            proof {
                assert(entry == entries@[rest@.len() as int]);
                assert(entries@.skip(rest@.len() as int) =~= seq![entry] + done);
                done.lemma_filter_prepend(entry, policy.admission());
                assert(rest@ =~= entries@.take(rest@.len() as int));
            }
            if self.policy.admits(&entry) {
                proof {
                    lemma_reverse_push(self.pending@, entry);
                    assert((seq![entry] + policy.admitted(done)) + old(self)@.queue =~= seq![entry]
                        + (policy.admitted(done) + old(self)@.queue));
                }
                self.pending.push(entry);
            }
        }
        proof {
            assert(entries@.skip(0) =~= entries@);
        }
    }

    /// Arrives at the next entry, if any waits, and says what to do with it.
    pub fn next(&mut self) -> (visit: Option<Visit<P>>)
        ensures
            visit == old(self)@.visit(),
            final(self)@ == old(self)@.advanced(),
    {
        match self.pending.pop() {
            None => {
                proof {
                    assert(self@ == old(self)@);
                }
                None
            },
            Some(entry) => {
                proof {
                    lemma_reverse_push(self.pending@, entry);
                    assert(old(self).pending@ =~= self.pending@.push(entry));
                    assert((seq![entry] + self.pending@.reverse()).drop_first()
                        =~= self.pending@.reverse());
                }
                let emit = self.policy.include_folders || !entry.folder;
                let list = entry.folder;
                Some(Visit { entry, emit, list })
            },
        }
    }
}

} // verus!
