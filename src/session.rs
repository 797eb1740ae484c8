//! The study session: which cards are shown in which order, which are
//! starred, and how each key changes that.
use vstd::prelude::*;

verus! {

broadcast use vstd::seq_lib::group_to_multiset_ensures;

/// A key, as the session reads it.
#[derive(Clone, Copy, Debug, PartialEq, Eq)]
pub enum Event {
    /// Right arrow: go to the next card.
    Right,
    /// Left arrow: go back a card.
    Left,
    /// Up arrow: show or hide the answer, or once finished, choose the next pass.
    Up,
    /// Down arrow: the same as `Up`.
    Down,
    /// Enter: star or unstar the card, or once finished, start a new pass.
    Enter,
    /// `q` or Ctrl-C: stop the session.
    Quit,
    /// Any other key, which changes nothing.
    Other,
}

/// The state of a study session.
pub struct Session {
    /// One flag per card of the deck, by its place in the deck: starred or not.
    pub starred: Vec<bool>,
    /// How many flags of `starred` are set.
    pub num_starred: usize,
    /// The cards of the current pass, in the order they are shown.
    pub order: Vec<usize>,
    /// The position in `order`; `order.len()` once the pass is finished.
    pub i: usize,
    /// While a card is shown: its answer is shown too. Once the pass is
    /// finished: the next pass takes the starred cards only.
    pub flipped: bool,
}

/// A session as mathematical values.
pub struct SessionView {
    pub starred: Seq<bool>,
    pub num_starred: nat,
    pub order: Seq<usize>,
    pub i: nat,
    pub flipped: bool,
}

impl View for Session {
    type V = SessionView;

    open spec fn view(&self) -> SessionView {
        SessionView {
            starred: self.starred@,
            num_starred: self.num_starred as nat,
            order: self.order@,
            i: self.i as nat,
            flipped: self.flipped,
        }
    }
}

/// The number of set flags.
pub open spec fn count_true(flags: Seq<bool>) -> nat
    decreases flags.len(),
{
    if flags.len() == 0 {
        0
    } else {
        count_true(flags.drop_last()) + if flags.last() {
            1nat
        } else {
            0nat
        }
    }
}

/// Every card index from `0` up to `n`, in order.
pub open spec fn all_cards(n: nat) -> Seq<usize> {
    Seq::new(n, |k: int| k as usize)
}

/// The indices of the set flags among the first `n`, in order.
pub open spec fn starred_upto(flags: Seq<bool>, n: int) -> Seq<usize>
    decreases n,
{
    if n <= 0 {
        seq![]
    } else if flags[n - 1] {
        starred_upto(flags, n - 1).push((n - 1) as usize)
    } else {
        starred_upto(flags, n - 1)
    }
}

/// The flags with the one of card `k` turned over.
pub open spec fn toggled(flags: Seq<bool>, k: int) -> Seq<bool> {
    flags.update(k, !flags[k])
}

impl SessionView {
    /// The session's invariant: the counter matches the flags, the order holds
    /// distinct cards of the deck, the position lies within it, and the deck's
    /// size fits a `usize`.
    pub open spec fn wf(self) -> bool {
        &&& self.num_starred == count_true(self.starred)
        &&& self.order.no_duplicates()
        &&& forall|k: int| 0 <= k < self.order.len() ==> #[trigger] self.order[k] < self.starred.len()
        &&& self.i <= self.order.len()
        &&& self.starred.len() <= usize::MAX
    }

    /// The pass is over: the position is past the last card.
    pub open spec fn finished(self) -> bool {
        self.i == self.order.len()
    }

    /// After `Right`: the next card, or the end of the pass, with the answer hidden.
    pub open spec fn advanced(self) -> SessionView {
        if self.i < self.order.len() {
            SessionView { i: self.i + 1, flipped: false, ..self }
        } else {
            self
        }
    }

    /// After `Left`: the card before, with the answer hidden.
    pub open spec fn retreated(self) -> SessionView {
        if self.i > 0 {
            SessionView { i: (self.i - 1) as nat, flipped: false, ..self }
        } else {
            self
        }
    }

    /// After `Up` or `Down`: the answer shown or hidden, or the next pass's choice turned over.
    pub open spec fn flipped_over(self) -> SessionView {
        SessionView { flipped: !self.flipped, ..self }
    }

    /// After `Enter` on a card: its star turned over and the counter moved by one.
    pub open spec fn star_toggled(self) -> SessionView {
        let k = self.order[self.i as int] as int;
        SessionView {
            starred: toggled(self.starred, k),
            num_starred: if self.starred[k] {
                (self.num_starred - 1) as nat
            } else {
                self.num_starred + 1
            },
            ..self
        }
    }

    /// The cards that a new pass draws from: the starred ones if so chosen, else all.
    pub open spec fn pool(self) -> Seq<usize> {
        if self.flipped {
            starred_upto(self.starred, self.starred.len() as int)
        } else {
            all_cards(self.starred.len())
        }
    }

    /// `next` begins a new pass over the cards of `self.pool()`, in some order.
    pub open spec fn new_pass(self, next: SessionView) -> bool {
        &&& next.starred == self.starred
        &&& next.num_starred == self.num_starred
        &&& next.order.to_multiset() == self.pool().to_multiset()
        &&& next.i == 0
        &&& !next.flipped
    }
}

/// Turning over one flag moves the count of set flags by one.
pub proof fn lemma_count_update(flags: Seq<bool>, k: int, v: bool)
    requires
        0 <= k < flags.len(),
    ensures
        count_true(flags.update(k, v)) + (if flags[k] {
            1int
        } else {
            0int
        }) == count_true(flags) + (if v {
            1int
        } else {
            0int
        }),
    decreases flags.len(),
{
    if k == flags.len() - 1 {
        assert(flags.update(k, v).drop_last() =~= flags.drop_last());
    } else {
        lemma_count_update(flags.drop_last(), k, v);
        assert(flags.update(k, v).drop_last() =~= flags.drop_last().update(k, v));
    }
}

/// No more flags are set than there are flags.
pub proof fn lemma_count_bound(flags: Seq<bool>)
    ensures
        count_true(flags) <= flags.len(),
    decreases flags.len(),
{
    if flags.len() > 0 {
        lemma_count_bound(flags.drop_last());
    }
}

/// With no flag set, the count is zero.
pub proof fn lemma_count_none(n: nat)
    ensures
        count_true(Seq::new(n, |_k: int| false)) == 0,
    decreases n,
{
    if n > 0 {
        lemma_count_none((n - 1) as nat);
        assert(Seq::new(n, |_k: int| false).drop_last() =~= Seq::new((n - 1) as nat, |_k: int| false));
    }
}

/// Starring the current card twice gives back the flags and the counter as they were.
pub proof fn lemma_star_twice(s: SessionView)
    requires
        s.wf(),
        !s.finished(),
    ensures
        s.star_toggled().star_toggled() == s,
{
    let k = s.order[s.i as int] as int;
    assert(toggled(toggled(s.starred, k), k) =~= s.starred);
    lemma_count_update(s.starred, k, false);
}

/// The starred indices are distinct, in range, and exactly those whose flag is set.
pub proof fn lemma_starred_upto(flags: Seq<bool>, n: int)
    requires
        0 <= n <= flags.len(),
        flags.len() <= usize::MAX,
    ensures
        starred_upto(flags, n).no_duplicates(),
        forall|j: int|
            0 <= j < starred_upto(flags, n).len() ==> #[trigger] starred_upto(flags, n)[j] < n,
        forall|k: usize| #[trigger]
            starred_upto(flags, n).contains(k) <==> (k < n && flags[k as int]),
        starred_upto(flags, n).len() == count_true(flags.subrange(0, n)),
    decreases n,
{
    if n > 0 {
        lemma_starred_upto(flags, n - 1);
        let r = starred_upto(flags, n - 1);
        assert(flags.subrange(0, n).drop_last() =~= flags.subrange(0, n - 1));
        if flags[n - 1] {
            let x = (n - 1) as usize;
            assert forall|k: usize| #[trigger] r.push(x).contains(k) <==> (k < n && flags[k as int]) by {
                if r.push(x).contains(k) {
                    let j = choose|j: int| 0 <= j < r.push(x).len() && r.push(x)[j] == k;
                    if j < r.len() {
                        assert(r.contains(k));
                    }
                }
                if k < n && flags[k as int] {
                    if k < n - 1 {
                        assert(r.contains(k));
                        let j = choose|j: int| 0 <= j < r.len() && r[j] == k;
                        assert(r.push(x)[j] == k);
                    } else {
                        assert(r.push(x)[r.len() as int] == k);
                    }
                }
            }
        }
    }
}

/// All cards up to `n` are distinct, in range, and every one of them is there.
pub proof fn lemma_all_cards(n: nat)
    requires
        n <= usize::MAX,
    ensures
        all_cards(n).no_duplicates(),
        forall|j: int| 0 <= j < all_cards(n).len() ==> #[trigger] all_cards(n)[j] < n,
        forall|k: usize| #[trigger] all_cards(n).contains(k) <==> k < n,
{
    assert forall|k: usize| #[trigger] all_cards(n).contains(k) <==> k < n by {
        if k < n {
            assert(all_cards(n)[k as int] == k);
        }
    }
}

/// Two orders of the same cards: what one holds without repeats, the other does too.
proof fn lemma_same_cards(pool: Seq<usize>, order: Seq<usize>, n: nat)
    requires
        pool.no_duplicates(),
        forall|j: int| 0 <= j < pool.len() ==> #[trigger] pool[j] < n,
        order.to_multiset() == pool.to_multiset(),
    ensures
        order.no_duplicates(),
        forall|j: int| 0 <= j < order.len() ==> #[trigger] order[j] < n,
        forall|k: usize| #[trigger] order.contains(k) <==> pool.contains(k),
        order.len() == pool.len(),
{
    pool.lemma_multiset_has_no_duplicates();
    order.lemma_multiset_has_no_duplicates_conv();
    assert(order.len() == order.to_multiset().len());
    assert(pool.len() == pool.to_multiset().len());
    assert forall|j: int| 0 <= j < order.len() implies #[trigger] order[j] < n by {
        assert(order.contains(order[j]));
        assert(order.to_multiset().count(order[j]) > 0);
        assert(pool.contains(order[j]));
    }
    assert forall|k: usize| #[trigger] order.contains(k) <==> pool.contains(k) by {
        assert(order.contains(k) <==> order.to_multiset().count(k) > 0);
        assert(pool.contains(k) <==> pool.to_multiset().count(k) > 0);
    }
}

/// A new pass holds each card at most once: every card of the deck when all
/// are studied, and exactly the cards starred when it began when only those are.
pub proof fn lemma_new_pass_cards(s: SessionView, next: SessionView)
    requires
        s.wf(),
        s.new_pass(next),
    ensures
        next.wf(),
        forall|k: usize| #[trigger]
            next.order.contains(k) <==> (k < s.starred.len() && (s.flipped ==> s.starred[k as int])),
        next.order.len() == if s.flipped {
            count_true(s.starred)
        } else {
            s.starred.len()
        },
{
    let n = s.starred.len();
    if s.flipped {
        lemma_starred_upto(s.starred, n as int);
        assert(s.starred.subrange(0, n as int) =~= s.starred);
    } else {
        lemma_all_cards(n);
    }
    lemma_same_cards(s.pool(), next.order, n);
}

/// Relies on rand's `SliceRandom::shuffle`, drawing from `thread_rng`: it
/// only swaps elements, so the vector keeps the same elements, in some order.
#[verifier::external_body]
fn shuffle(v: &mut Vec<usize>)
    ensures
        final(v)@.to_multiset() == old(v)@.to_multiset(),
{
    rand::seq::SliceRandom::shuffle(v.as_mut_slice(), &mut rand::thread_rng());
}

impl Session {
    /// A session over a deck of `n` cards: all of them, shuffled, none starred,
    /// at the first card with its answer hidden.
    pub fn new(n: usize) -> (r: Session)
        ensures
            r@.wf(),
            r@.starred == Seq::new(n as nat, |_k: int| false),
            r@.num_starred == 0,
            r@.order.to_multiset() == all_cards(n as nat).to_multiset(),
            r@.order.len() == n,
            forall|k: usize| #[trigger] r@.order.contains(k) <==> k < n,
            r@.i == 0,
            !r@.flipped,
    {
        let mut starred: Vec<bool> = Vec::new();
        let mut order: Vec<usize> = Vec::new();
        let mut k: usize = 0;
        while k < n
            invariant
                k <= n,
                starred@ == Seq::new(k as nat, |_k: int| false),
                order@ == all_cards(k as nat),
            decreases n - k,
        {
            starred.push(false);
            order.push(k);
            assert(starred@ =~= Seq::new((k + 1) as nat, |_k: int| false));
            assert(order@ =~= all_cards((k + 1) as nat));
            k = k + 1;
        }
        shuffle(&mut order);
        proof {
            lemma_count_none(n as nat);
            lemma_all_cards(n as nat);
            lemma_same_cards(all_cards(n as nat), order@, n as nat);
        }
        Session { starred, num_starred: 0, order, i: 0, flipped: false }
    }

    /// The pass is over.
    pub fn is_finished(&self) -> (r: bool)
        ensures
            r == self@.finished(),
    {
        self.i == self.order.len()
    }

    /// The cards that a new pass would draw from, in the order of the deck.
    pub fn pool(&self) -> (r: Vec<usize>)
        ensures
            r@ == self@.pool(),
    {
        let n = self.starred.len();
        let mut r: Vec<usize> = Vec::new();
        let mut k: usize = 0;
        while k < n
            invariant
                k <= n,
                n == self.starred@.len(),
                r@ == if self.flipped {
                    starred_upto(self.starred@, k as int)
                } else {
                    all_cards(k as nat)
                },
            decreases n - k,
        {
            if !self.flipped || self.starred[k] {
                r.push(k);
            }
            assert(all_cards(k as nat).push(k) =~= all_cards((k + 1) as nat));
            k = k + 1;
        }
        r
    }

    /// Begins a new pass in the given order, which must hold the cards of the
    /// pool; the next pass after it takes all cards unless chosen otherwise.
    pub fn begin_pass(&mut self, order: Vec<usize>)
        requires
            old(self)@.wf(),
            order@.to_multiset() == old(self)@.pool().to_multiset(),
        ensures
            old(self)@.new_pass(final(self)@),
            final(self)@.wf(),
    {
        let ghost before = self@;
        self.order = order;
        self.i = 0;
        self.flipped = false;
        proof {
            lemma_new_pass_cards(before, self@);
        }
    }

    /// Draws the pool in a random order and begins a pass over it.
    pub fn reshuffle(&mut self)
        requires
            old(self)@.wf(),
        ensures
            old(self)@.new_pass(final(self)@),
            final(self)@.wf(),
    {
        let mut order = self.pool();
        shuffle(&mut order);
        self.begin_pass(order);
    }

    /// Stars the current card, or takes its star away.
    pub fn toggle_star(&mut self)
        requires
            old(self)@.wf(),
            !old(self)@.finished(),
        ensures
            final(self)@ == old(self)@.star_toggled(),
            final(self)@.wf(),
    {
        let ghost before = self@;
        let k = self.order[self.i];
        let was = self.starred[k];
        proof {
            lemma_count_update(self.starred@, k as int, !was);
            lemma_count_bound(toggled(self.starred@, k as int));
        }
        if was {
            self.num_starred = self.num_starred - 1;
        } else {
            self.num_starred = self.num_starred + 1;
        }
        self.starred.set(k, !was);
        assert(self@.starred =~= toggled(before.starred, k as int));
        assert(self@ == before.star_toggled());
    }

    /// Applies one key. Returns `false` on `Quit`, after which the session is over.
    pub fn handle(&mut self, e: Event) -> (go_on: bool)
        requires
            old(self)@.wf(),
        ensures
            final(self)@.wf(),
            go_on == (e != Event::Quit),
            match e {
                Event::Right => final(self)@ == old(self)@.advanced(),
                Event::Left => final(self)@ == old(self)@.retreated(),
                Event::Up | Event::Down => final(self)@ == old(self)@.flipped_over(),
                Event::Enter => if old(self)@.finished() {
                    old(self)@.new_pass(final(self)@)
                } else {
                    final(self)@ == old(self)@.star_toggled()
                },
                Event::Quit | Event::Other => final(self)@ == old(self)@,
            },
    {
        match e {
            Event::Right => {
                if self.i < self.order.len() {
                    self.i = self.i + 1;
                    self.flipped = false;
                }
                true
            },
            Event::Left => {
                if self.i > 0 {
                    self.i = self.i - 1;
                    self.flipped = false;
                }
                true
            },
            Event::Up | Event::Down => {
                self.flipped = !self.flipped;
                true
            },
            Event::Enter => {
                if self.i == self.order.len() {
                    self.reshuffle();
                } else {
                    self.toggle_star();
                }
                true
            },
            Event::Quit => false,
            Event::Other => true,
        }
    }
}

} // verus!
