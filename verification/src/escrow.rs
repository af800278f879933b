use vstd::prelude::*;

verus! {

/// Why a deposit or a withdrawal is refused.
#[derive(Clone, Copy, Debug, PartialEq, Eq, Structural)]
pub enum Error {
    NotAuthorizedToWithdraw,
    NegativeAmount,
    TimePredicateUnfulfilled,
    NoReceiptsFound,
}

/// Whether a withdrawal must come before or after a time bound's timestamp.
#[derive(Clone, Copy, Debug, PartialEq, Eq, Structural)]
pub enum TimeBoundKind {
    Before,
    After,
}

/// The time lock of a deposit.
#[derive(Clone, Copy, Debug, PartialEq, Eq, Structural)]
pub struct TimeBound {
    pub kind: TimeBoundKind,
    pub timestamp: u64,
}

/// The ledger time `now` meets `time_bound`: it is at most the bound's
/// timestamp for `Before`, and at least it for `After`.
pub open spec fn time_bound_holds(now: u64, time_bound: TimeBound) -> bool {
    match time_bound.kind {
        TimeBoundKind::Before => now <= time_bound.timestamp,
        TimeBoundKind::After => now >= time_bound.timestamp,
    }
}

/// The time lock check: whether `ledger_timestamp` meets `time_bound`.
pub fn check_time_bound(ledger_timestamp: u64, time_bound: &TimeBound) -> (ok: bool)
    ensures
        ok == time_bound_holds(ledger_timestamp, *time_bound),
        time_bound.kind == TimeBoundKind::Before ==> (ok <==> ledger_timestamp <= time_bound.timestamp),
        time_bound.kind == TimeBoundKind::After ==> (ok <==> ledger_timestamp >= time_bound.timestamp),
{
    match time_bound.kind {
        TimeBoundKind::Before => ledger_timestamp <= time_bound.timestamp,
        TimeBoundKind::After => ledger_timestamp >= time_bound.timestamp,
    }
}

/// What a receipt records, with addresses as their string form.
pub struct ReceiptView {
    pub amount: i128,
    pub depositor: Seq<char>,
    pub token: Seq<char>,
    pub time_bound: TimeBound,
}

/// A deposit held for a recipient: the amount of `token` that `depositor`
/// paid in, and the time lock on withdrawing it.
#[derive(Debug)]
pub struct ReceiptConfig {
    amount: i128,
    depositor: String,
    token: String,
    time_bound: TimeBound,
}

impl View for ReceiptConfig {
    type V = ReceiptView;

    closed spec fn view(&self) -> ReceiptView {
        ReceiptView {
            amount: self.amount,
            depositor: self.depositor@,
            token: self.token@,
            time_bound: self.time_bound,
        }
    }
}

impl ReceiptConfig {
    /// The receipt for `amount` of `token` paid in by `depositor`.
    pub fn new(amount: i128, depositor: String, token: String, time_bound: TimeBound) -> (c: Self)
        ensures
            c@ == (ReceiptView { amount, depositor: depositor@, token: token@, time_bound }),
    {
        ReceiptConfig { amount, depositor, token, time_bound }
    }

    /// The amount held.
    pub fn amount(&self) -> (a: i128)
        ensures
            a == self@.amount,
    {
        self.amount
    }

    /// Who paid the amount in.
    pub fn depositor(&self) -> (d: &String)
        ensures
            d@ == self@.depositor,
    {
        &self.depositor
    }

    /// The token contract of the amount.
    pub fn token(&self) -> (t: &String)
        ensures
            t@ == self@.token,
    {
        &self.token
    }

    /// The time lock on withdrawing the amount.
    pub fn time_bound(&self) -> (t: TimeBound)
        ensures
            t == self@.time_bound,
    {
        self.time_bound
    }
}

impl Clone for ReceiptConfig {
    fn clone(&self) -> (c: Self)
        ensures
            c@ == self@,
    {
        ReceiptConfig {
            amount: self.amount,
            depositor: self.depositor.clone(),
            token: self.token.clone(),
            time_bound: self.time_bound,
        }
    }
}

impl PartialEq for ReceiptConfig {
    fn eq(&self, other: &Self) -> (r: bool) {
        self.amount == other.amount && self.depositor == other.depositor && self.token
            == other.token && self.time_bound == other.time_bound
    }
}

impl vstd::std_specs::cmp::PartialEqSpecImpl for ReceiptConfig {
    open spec fn obeys_eq_spec() -> bool {
        true
    }

    open spec fn eq_spec(&self, other: &ReceiptConfig) -> bool {
        self@ == other@
    }
}

/// A key of the escrow contract's instance storage.
#[derive(Debug)]
pub enum StorageKey {
    /// The admin's address.
    Admin,
    /// A receipt, keyed by the recipient's address and the receipt's number.
    Receipt(String, u32),
    /// How many receipts a recipient has been given.
    ReceiptCount(String),
}

/// A storage key, with addresses as their string form.
pub enum KeyView {
    Admin,
    Receipt(Seq<char>, u32),
    ReceiptCount(Seq<char>),
}

impl View for StorageKey {
    type V = KeyView;

    open spec fn view(&self) -> KeyView {
        match self {
            StorageKey::Admin => KeyView::Admin,
            StorageKey::Receipt(r, i) => KeyView::Receipt(r@, *i),
            StorageKey::ReceiptCount(r) => KeyView::ReceiptCount(r@),
        }
    }
}

impl Clone for StorageKey {
    fn clone(&self) -> (k: Self)
        ensures
            k@ == self@,
    {
        match self {
            StorageKey::Admin => StorageKey::Admin,
            StorageKey::Receipt(r, i) => StorageKey::Receipt(r.clone(), *i),
            StorageKey::ReceiptCount(r) => StorageKey::ReceiptCount(r.clone()),
        }
    }
}

/// A key of the instance storage together with the value stored under it:
/// the admin's address, a receipt, or a recipient's receipt count.
#[derive(Debug)]
pub enum StorageEntry {
    Admin(String),
    Receipt(String, u32, ReceiptConfig),
    ReceiptCount(String, u32),
}

/// A storage entry, with addresses as their string form.
pub enum EntryView {
    Admin(Seq<char>),
    Receipt(Seq<char>, u32, ReceiptView),
    ReceiptCount(Seq<char>, u32),
}

impl View for StorageEntry {
    type V = EntryView;

    open spec fn view(&self) -> EntryView {
        match self {
            StorageEntry::Admin(a) => EntryView::Admin(a@),
            StorageEntry::Receipt(r, i, c) => EntryView::Receipt(r@, *i, c@),
            StorageEntry::ReceiptCount(r, n) => EntryView::ReceiptCount(r@, *n),
        }
    }
}

/// The key under which an entry is stored.
pub open spec fn key_of(e: EntryView) -> KeyView {
    match e {
        EntryView::Admin(_) => KeyView::Admin,
        EntryView::Receipt(r, i, _) => KeyView::Receipt(r, i),
        EntryView::ReceiptCount(r, _) => KeyView::ReceiptCount(r),
    }
}

impl Clone for StorageEntry {
    fn clone(&self) -> (e: Self)
        ensures
            e@ == self@,
    {
        match self {
            StorageEntry::Admin(a) => StorageEntry::Admin(a.clone()),
            StorageEntry::Receipt(r, i, c) => StorageEntry::Receipt(r.clone(), *i, c.clone()),
            StorageEntry::ReceiptCount(r, n) => StorageEntry::ReceiptCount(r.clone(), *n),
        }
    }
}

impl StorageEntry {
    /// The key under which this entry is stored.
    pub fn key(&self) -> (k: StorageKey)
        ensures
            k@ == key_of(self@),
    {
        match self {
            StorageEntry::Admin(_) => StorageKey::Admin,
            StorageEntry::Receipt(r, i, _) => StorageKey::Receipt(r.clone(), *i),
            StorageEntry::ReceiptCount(r, _) => StorageKey::ReceiptCount(r.clone()),
        }
    }

    /// Whether this entry is stored under `key`.
    pub fn has_key(&self, key: &StorageKey) -> (b: bool)
        ensures
            b == (key_of(self@) == key@),
    {
        match (self, key) {
            (StorageEntry::Admin(_), StorageKey::Admin) => true,
            (StorageEntry::Receipt(r, i, _), StorageKey::Receipt(r2, i2)) => *i == *i2 && *r == *r2,
            (StorageEntry::ReceiptCount(r, _), StorageKey::ReceiptCount(r2)) => *r == *r2,
            _ => false,
        }
    }
}

/// What the escrow contract holds in its instance storage: the admin, the
/// receipts by recipient and number, and each recipient's receipt count.
pub struct EscrowView {
    pub admin: Option<Seq<char>>,
    pub receipts: Map<(Seq<char>, u32), ReceiptView>,
    pub counts: Map<Seq<char>, u32>,
}

/// Storage that holds nothing.
pub open spec fn empty_storage() -> EscrowView {
    EscrowView { admin: None, receipts: Map::empty(), counts: Map::empty() }
}

/// The storage after writing `e` under its key.
pub open spec fn write_entry(s: EscrowView, e: EntryView) -> EscrowView {
    match e {
        EntryView::Admin(a) => EscrowView { admin: Some(a), receipts: s.receipts, counts: s.counts },
        EntryView::Receipt(r, i, c) => EscrowView {
            admin: s.admin,
            receipts: s.receipts.insert((r, i), c),
            counts: s.counts,
        },
        EntryView::ReceiptCount(r, n) => EscrowView {
            admin: s.admin,
            receipts: s.receipts,
            counts: s.counts.insert(r, n),
        },
    }
}

/// The storage after removing whatever is stored under `k`.
pub open spec fn remove_key(s: EscrowView, k: KeyView) -> EscrowView {
    match k {
        KeyView::Admin => EscrowView { admin: None, receipts: s.receipts, counts: s.counts },
        KeyView::Receipt(r, i) => EscrowView {
            admin: s.admin,
            receipts: s.receipts.remove((r, i)),
            counts: s.counts,
        },
        KeyView::ReceiptCount(r) => EscrowView {
            admin: s.admin,
            receipts: s.receipts,
            counts: s.counts.remove(r),
        },
    }
}

/// The entry stored under `k`, if any.
pub open spec fn read_key(s: EscrowView, k: KeyView) -> Option<EntryView> {
    match k {
        KeyView::Admin => match s.admin {
            Some(a) => Some(EntryView::Admin(a)),
            None => None,
        },
        KeyView::Receipt(r, i) => if s.receipts.contains_key((r, i)) {
            Some(EntryView::Receipt(r, i, s.receipts[(r, i)]))
        } else {
            None
        },
        KeyView::ReceiptCount(r) => if s.counts.contains_key(r) {
            Some(EntryView::ReceiptCount(r, s.counts[r]))
        } else {
            None
        },
    }
}

/// The storage that writing `es`, in order, into empty storage leaves.
pub open spec fn entries_view(es: Seq<EntryView>) -> EscrowView
    decreases es.len(),
{
    if es.len() == 0 {
        empty_storage()
    } else {
        write_entry(entries_view(es.drop_last()), es.last())
    }
}

/// The views of a sequence of entries.
pub open spec fn entry_views(es: Seq<StorageEntry>) -> Seq<EntryView> {
    es.map_values(|e: StorageEntry| e@)
}

/// An optional entry's view.
pub open spec fn opt_entry_view(e: Option<StorageEntry>) -> Option<EntryView> {
    match e {
        Some(e) => Some(e@),
        None => None,
    }
}

/// A read gives back the last write under the same key, and writes under
/// other keys do not change it.
pub proof fn lemma_read_after_write(s: EscrowView, e: EntryView, k: KeyView)
    ensures
        read_key(write_entry(s, e), k) == (if key_of(e) == k { Some(e) } else { read_key(s, k) }),
{
    match e {
        EntryView::Receipt(r, i, c) => {
            if key_of(e) != k {
                if let KeyView::Receipt(r2, i2) = k {
                    assert((r, i) != (r2, i2));
                }
            }
        },
        EntryView::ReceiptCount(r, n) => {
        },
        EntryView::Admin(a) => {
        },
    }
}

/// A removal under `k` undoes a write under `k` and commutes with writes
/// under other keys.
pub proof fn lemma_remove_after_write(s: EscrowView, e: EntryView, k: KeyView)
    ensures
        remove_key(write_entry(s, e), k) == (if key_of(e) == k {
            remove_key(s, k)
        } else {
            write_entry(remove_key(s, k), e)
        }),
{
    match (e, k) {
        (EntryView::Receipt(r, i, c), KeyView::Receipt(r2, i2)) => {
            if (r, i) == (r2, i2) {
                assert(s.receipts.insert((r, i), c).remove((r2, i2)) =~= s.receipts.remove((r2, i2)));
            } else {
                assert(s.receipts.insert((r, i), c).remove((r2, i2)) =~= s.receipts.remove((r2, i2)).insert((r, i), c));
            }
        },
        (EntryView::ReceiptCount(r, n), KeyView::ReceiptCount(r2)) => {
            if r == r2 {
                assert(s.counts.insert(r, n).remove(r2) =~= s.counts.remove(r2));
            } else {
                assert(s.counts.insert(r, n).remove(r2) =~= s.counts.remove(r2).insert(r, n));
            }
        },
        _ => {
        },
    }
}

/// Removing the old value first does not change what a write leaves.
pub proof fn lemma_write_overwrites(s: EscrowView, e: EntryView)
    ensures
        write_entry(remove_key(s, key_of(e)), e) == write_entry(s, e),
{
    match e {
        EntryView::Receipt(r, i, c) => {
            assert(s.receipts.remove((r, i)).insert((r, i), c) =~= s.receipts.insert((r, i), c));
        },
        EntryView::ReceiptCount(r, n) => {
            assert(s.counts.remove(r).insert(r, n) =~= s.counts.insert(r, n));
        },
        EntryView::Admin(a) => {
        },
    }
}

/// The number the next receipt of `recipient` gets: one more than its
/// receipt count, which is zero while none is stored.
pub open spec fn next_receipt_index(s: EscrowView, recipient: Seq<char>) -> int {
    (if s.counts.contains_key(recipient) { s.counts[recipient] as int } else { 0 }) + 1
}

/// What a deposit or withdrawal returns, with the receipt as its view.
pub open spec fn result_view(r: Result<(ReceiptConfig, u32), Error>) -> Result<(ReceiptView, u32), Error> {
    match r {
        Ok((c, n)) => Ok((c@, n)),
        Err(e) => Err(e),
    }
}

/// Result and storage after a deposit: with a positive amount, the receipt
/// is stored under the recipient's next receipt number, which becomes its
/// receipt count; otherwise `NegativeAmount` and no change.
pub open spec fn deposit_outcome(
    s: EscrowView,
    depositor: Seq<char>,
    recipient: Seq<char>,
    token: Seq<char>,
    amount: i128,
    time_bound: TimeBound,
    ledger_sequence: u32,
) -> (Result<(ReceiptView, u32), Error>, EscrowView) {
    if amount <= 0 {
        (Err(Error::NegativeAmount), s)
    } else {
        let index = next_receipt_index(s, recipient) as u32;
        let receipt = ReceiptView { amount, depositor, token, time_bound };
        (
            Ok((receipt, ledger_sequence)),
            EscrowView {
                admin: s.admin,
                receipts: s.receipts.insert((recipient, index), receipt),
                counts: s.counts.insert(recipient, index),
            },
        )
    }
}

/// Result and storage after a withdrawal: the receipt, which is removed,
/// when it exists and its time lock is met at `now`; otherwise the error,
/// and no change.
pub open spec fn withdraw_outcome(
    s: EscrowView,
    recipient: Seq<char>,
    index: u32,
    now: u64,
    ledger_sequence: u32,
) -> (Result<(ReceiptView, u32), Error>, EscrowView) {
    if !s.receipts.contains_key((recipient, index)) {
        (Err(Error::NoReceiptsFound), s)
    } else if !time_bound_holds(now, s.receipts[(recipient, index)].time_bound) {
        (Err(Error::TimePredicateUnfulfilled), s)
    } else {
        (
            Ok((s.receipts[(recipient, index)], ledger_sequence)),
            EscrowView {
                admin: s.admin,
                receipts: s.receipts.remove((recipient, index)),
                counts: s.counts,
            },
        )
    }
}

/// The escrow contract, holding a model of its instance storage as the
/// entries written to it, the latest write under each key counting.
pub struct EscrowContract {
    entries: Vec<StorageEntry>,
}

impl View for EscrowContract {
    type V = EscrowView;

    closed spec fn view(&self) -> EscrowView {
        entries_view(entry_views(self.entries@))
    }
}

impl EscrowContract {
    /// Empty instance storage.
    pub fn new() -> (c: Self)
        ensures
            c@ == empty_storage(),
    {
        let c = EscrowContract { entries: Vec::new() };
        assert(entry_views(c.entries@) =~= Seq::<EntryView>::empty());
        c
    }

    /// The entry stored under `key`, if any.
    pub fn get(&self, key: &StorageKey) -> (e: Option<StorageEntry>)
        ensures
            opt_entry_view(e) == read_key(self@, key@),
    {
        let ghost vs = entry_views(self.entries@);
        let mut i: usize = self.entries.len();
        assert(vs.take(i as int) =~= vs);
        while i > 0
            invariant
                i <= self.entries@.len(),
                vs == entry_views(self.entries@),
                read_key(self@, key@) == read_key(entries_view(vs.take(i as int)), key@),
            decreases i,
        {
            i = i - 1;
            proof {
                assert(vs.take(i as int + 1).drop_last() =~= vs.take(i as int));
                assert(vs.take(i as int + 1).last() == self.entries@[i as int]@);
                lemma_read_after_write(entries_view(vs.take(i as int)), self.entries@[i as int]@, key@);
            }
            if self.entries[i].has_key(key) {
                return Some(self.entries[i].clone());
            }
        }
        assert(vs.take(0) =~= Seq::<EntryView>::empty());
        None
    }

    /// Removes whatever is stored under `key`.
    pub fn remove(&mut self, key: &StorageKey)
        ensures
            final(self)@ == remove_key(old(self)@, key@),
    {
        let ghost vs = entry_views(self.entries@);
        let mut kept: Vec<StorageEntry> = Vec::new();
        let mut i: usize = 0;
        proof {
            assert(entry_views(kept@) =~= Seq::<EntryView>::empty());
            assert(vs.take(0) =~= Seq::<EntryView>::empty());
            let e = empty_storage();
            match key@ {
                KeyView::Receipt(r, i) => assert(e.receipts.remove((r, i)) =~= e.receipts),
                KeyView::ReceiptCount(r) => assert(e.counts.remove(r) =~= e.counts),
                KeyView::Admin => {},
            }
        }
        while i < self.entries.len()
            invariant
                i <= self.entries@.len(),
                vs == entry_views(self.entries@),
                entries_view(entry_views(kept@)) == remove_key(entries_view(vs.take(i as int)), key@),
            decreases self.entries@.len() - i,
        {
            proof {
                assert(vs.take(i as int + 1).drop_last() =~= vs.take(i as int));
                assert(vs.take(i as int + 1).last() == self.entries@[i as int]@);
                lemma_remove_after_write(entries_view(vs.take(i as int)), self.entries@[i as int]@, key@);
            }
            if !self.entries[i].has_key(key) {
                let ghost before = kept@;
                kept.push(self.entries[i].clone());
                proof {
                    assert(entry_views(kept@).drop_last() =~= entry_views(before));
                }
            }
            i = i + 1;
        }
        assert(vs.take(vs.len() as int) =~= vs);
        self.entries = kept;
    }

    /// Writes `entry` under its key, replacing what was stored there.
    pub fn set(&mut self, entry: StorageEntry)
        ensures
            final(self)@ == write_entry(old(self)@, entry@),
    {
        let key = entry.key();
        self.remove(&key);
        let ghost before = self.entries@;
        self.entries.push(entry);
        proof {
            assert(entry_views(self.entries@).drop_last() =~= entry_views(before));
            lemma_write_overwrites(old(self)@, entry@);
        }
    }

    /// The entries to write, in order, into empty storage to obtain this
    /// storage.
    pub fn entries(&self) -> (es: &Vec<StorageEntry>)
        ensures
            entries_view(entry_views(es@)) == self@,
    {
        &self.entries
    }

    /// The contract as deployed with `admin` as its admin.
    pub fn __constructor(admin: String) -> (c: Self)
        ensures
            c@ == (EscrowView { admin: Some(admin@), receipts: Map::empty(), counts: Map::empty() }),
    {
        let mut c = Self::new();
        c.set(StorageEntry::Admin(admin));
        c
    }

    /// The admin's address.
    pub fn admin(&self) -> (a: String)
        requires
            self@.admin is Some,
        ensures
            a@ == self@.admin->0,
    {
        match self.get(&StorageKey::Admin) {
            Some(StorageEntry::Admin(a)) => a,
            _ => {
                assert(false);
                String::new()
            },
        }
    }

    /// Makes `new_admin` the admin.
    pub fn set_admin(&mut self, new_admin: String)
        requires
            old(self)@.admin is Some,
        ensures
            final(self)@ == (EscrowView { admin: Some(new_admin@), ..old(self)@ }),
    {
        self.set(StorageEntry::Admin(new_admin));
    }

    /// Holds `amount` of `token`, paid in by `depositor`, for `recipient`,
    /// under the recipient's next receipt number. Returns the receipt and
    /// `ledger_sequence`, or `NegativeAmount`, changing nothing, when the
    /// amount is not positive.
    pub fn deposit(
        &mut self,
        depositor: String,
        recipient: String,
        token: String,
        amount: i128,
        time_bound: TimeBound,
        ledger_sequence: u32,
    ) -> (r: Result<(ReceiptConfig, u32), Error>)
        requires
            amount <= 0 || next_receipt_index(old(self)@, recipient@) <= u32::MAX,
        ensures
            (result_view(r), final(self)@) == deposit_outcome(
                old(self)@,
                depositor@,
                recipient@,
                token@,
                amount,
                time_bound,
                ledger_sequence,
            ),
    {
        if amount <= 0 {
            return Err(Error::NegativeAmount);
        }
        let count: u32 = match self.get(&StorageKey::ReceiptCount(recipient.clone())) {
            Some(StorageEntry::ReceiptCount(_, n)) => n,
            _ => 0,
        };
        let index: u32 = count + 1;
        let receipt = ReceiptConfig { amount, token, time_bound, depositor };
        self.set(StorageEntry::Receipt(recipient.clone(), index, receipt.clone()));
        self.set(StorageEntry::ReceiptCount(recipient, index));
        Ok((receipt, ledger_sequence))
    }

    /// Pays out receipt number `index` of `recipient` once the ledger time
    /// `ledger_timestamp` meets its time lock, and removes it. Returns the
    /// receipt and `ledger_sequence`; `NoReceiptsFound` when there is no such
    /// receipt and `TimePredicateUnfulfilled` when the time lock is not met,
    /// changing nothing in either case.
    pub fn withdraw(&mut self, recipient: String, index: u32, ledger_timestamp: u64, ledger_sequence: u32) -> (r: Result<(ReceiptConfig, u32), Error>)
        ensures
            (result_view(r), final(self)@) == withdraw_outcome(
                old(self)@,
                recipient@,
                index,
                ledger_timestamp,
                ledger_sequence,
            ),
    {
        let key = StorageKey::Receipt(recipient, index);
        let receipt = match self.get(&key) {
            Some(StorageEntry::Receipt(_, _, c)) => c,
            _ => {
                return Err(Error::NoReceiptsFound);
            },
        };
        if !check_time_bound(ledger_timestamp, &receipt.time_bound) {
            return Err(Error::TimePredicateUnfulfilled);
        }
        self.remove(&key);
        Ok((receipt, ledger_sequence))
    }
}

/// Withdrawing a deposit, once its time lock is met, gives back the receipt
/// that was deposited and removes it again; only the recipient's receipt
/// count keeps a trace of it.
pub proof fn lemma_withdraw_returns_deposit(
    s: EscrowView,
    depositor: Seq<char>,
    recipient: Seq<char>,
    token: Seq<char>,
    amount: i128,
    time_bound: TimeBound,
    deposit_sequence: u32,
    now: u64,
    withdraw_sequence: u32,
)
    requires
        amount > 0,
        time_bound_holds(now, time_bound),
    ensures
        withdraw_outcome(
            deposit_outcome(s, depositor, recipient, token, amount, time_bound, deposit_sequence).1,
            recipient,
            next_receipt_index(s, recipient) as u32,
            now,
            withdraw_sequence,
        ) == (
            Ok::<(ReceiptView, u32), Error>((ReceiptView { amount, depositor, token, time_bound }, withdraw_sequence)),
            EscrowView {
                admin: s.admin,
                receipts: s.receipts.remove((recipient, next_receipt_index(s, recipient) as u32)),
                counts: s.counts.insert(recipient, next_receipt_index(s, recipient) as u32),
            },
        ),
{
    let key = (recipient, next_receipt_index(s, recipient) as u32);
    let receipt = ReceiptView { amount, depositor, token, time_bound };
    assert(s.receipts.insert(key, receipt).remove(key) =~= s.receipts.remove(key));
}

/// A receipt is paid out at most once: after a successful withdrawal, the
/// same withdrawal finds no receipt and changes nothing.
pub proof fn lemma_withdraw_only_once(
    s: EscrowView,
    recipient: Seq<char>,
    index: u32,
    now: u64,
    sequence: u32,
    later: u64,
    later_sequence: u32,
)
    requires
        withdraw_outcome(s, recipient, index, now, sequence).0 is Ok,
    ensures
        withdraw_outcome(withdraw_outcome(s, recipient, index, now, sequence).1, recipient, index, later, later_sequence)
            == (Err::<(ReceiptView, u32), Error>(Error::NoReceiptsFound), withdraw_outcome(s, recipient, index, now, sequence).1),
{
}

/// Successive deposits for a recipient get successive receipt numbers, and
/// a later deposit leaves the earlier receipt in place.
pub proof fn lemma_deposits_numbered_in_turn(
    s: EscrowView,
    recipient: Seq<char>,
    depositor: Seq<char>,
    token: Seq<char>,
    amount: i128,
    time_bound: TimeBound,
    sequence: u32,
    depositor2: Seq<char>,
    token2: Seq<char>,
    amount2: i128,
    time_bound2: TimeBound,
    sequence2: u32,
)
    requires
        amount > 0,
        next_receipt_index(s, recipient) < u32::MAX,
    ensures
        ({
            let s1 = deposit_outcome(s, depositor, recipient, token, amount, time_bound, sequence).1;
            let s2 = deposit_outcome(s1, depositor2, recipient, token2, amount2, time_bound2, sequence2).1;
            let index = next_receipt_index(s, recipient) as u32;
            &&& next_receipt_index(s1, recipient) == next_receipt_index(s, recipient) + 1
            &&& s2.receipts.contains_key((recipient, index))
            &&& s2.receipts[(recipient, index)] == (ReceiptView { amount, depositor, token, time_bound })
        }),
{
}

/// A call made on the escrow contract, with the ledger data it sees.
pub enum EscrowCall {
    Deposit {
        depositor: Seq<char>,
        recipient: Seq<char>,
        token: Seq<char>,
        amount: i128,
        time_bound: TimeBound,
        ledger_sequence: u32,
    },
    Withdraw { recipient: Seq<char>, index: u32, ledger_timestamp: u64, ledger_sequence: u32 },
    SetAdmin(Seq<char>),
}

/// The storage after one call. A call that panics (a deposit that would
/// take a receipt count past `u32::MAX`, `set_admin` without an admin)
/// aborts and leaves the storage as it was.
pub open spec fn escrow_step(s: EscrowView, c: EscrowCall) -> EscrowView {
    match c {
        EscrowCall::Deposit { depositor, recipient, token, amount, time_bound, ledger_sequence } => {
            if amount > 0 && next_receipt_index(s, recipient) > u32::MAX {
                s
            } else {
                deposit_outcome(s, depositor, recipient, token, amount, time_bound, ledger_sequence).1
            }
        },
        EscrowCall::Withdraw { recipient, index, ledger_timestamp, ledger_sequence } => withdraw_outcome(
            s,
            recipient,
            index,
            ledger_timestamp,
            ledger_sequence,
        ).1,
        EscrowCall::SetAdmin(a) => if s.admin is Some {
            EscrowView { admin: Some(a), ..s }
        } else {
            s
        },
    }
}

/// The storage after making `calls`, in order, from `s`.
pub open spec fn run_escrow(s: EscrowView, calls: Seq<EscrowCall>) -> EscrowView
    decreases calls.len(),
{
    if calls.len() == 0 {
        s
    } else {
        escrow_step(run_escrow(s, calls.drop_last()), calls.last())
    }
}

/// Every stored receipt's number lies between one and its recipient's
/// receipt count.
pub open spec fn receipts_numbered(s: EscrowView) -> bool {
    forall|r: Seq<char>, i: u32|
        #[trigger] s.receipts.contains_key((r, i)) ==> s.counts.contains_key(r) && 1 <= i
            <= s.counts[r]
}

/// Each call keeps the receipts numbered.
pub proof fn lemma_step_keeps_numbered(s: EscrowView, c: EscrowCall)
    requires
        receipts_numbered(s),
    ensures
        receipts_numbered(escrow_step(s, c)),
{
    let t = escrow_step(s, c);
    assert forall|r: Seq<char>, i: u32| #[trigger] t.receipts.contains_key((r, i)) implies t.counts.contains_key(r)
        && 1 <= i <= t.counts[r] by {
        if let EscrowCall::Deposit { depositor, recipient, token, amount, time_bound, ledger_sequence } = c {
            if amount > 0 && next_receipt_index(s, recipient) <= u32::MAX && (r, i) != (
                recipient,
                next_receipt_index(s, recipient) as u32,
            ) {
                assert(s.receipts.contains_key((r, i)));
            }
        }
    }
}

/// Any calls keep the receipts numbered.
pub proof fn lemma_run_keeps_numbered(s: EscrowView, calls: Seq<EscrowCall>)
    requires
        receipts_numbered(s),
    ensures
        receipts_numbered(run_escrow(s, calls)),
    decreases calls.len(),
{
    if calls.len() > 0 {
        lemma_run_keeps_numbered(s, calls.drop_last());
        lemma_step_keeps_numbered(run_escrow(s, calls.drop_last()), calls.last());
    }
}

/// The contract as deployed has its receipts numbered.
pub proof fn lemma_deployed_numbered(admin: Seq<char>)
    ensures
        receipts_numbered(EscrowView { admin: Some(admin), receipts: Map::empty(), counts: Map::empty() }),
{
}

/// `calls` holds no withdrawal of receipt `index` of `recipient` made at a
/// time that meets `time_bound`.
pub open spec fn no_timely_withdrawal(calls: Seq<EscrowCall>, recipient: Seq<char>, index: u32, time_bound: TimeBound) -> bool {
    forall|j: int|
        0 <= j < calls.len() ==> match #[trigger] calls[j] {
            EscrowCall::Withdraw { recipient: r, index: i, ledger_timestamp, ledger_sequence } => (r, i)
                == (recipient, index) ==> !time_bound_holds(ledger_timestamp, time_bound),
            _ => true,
        }
}

/// A stored receipt stays as it is through any calls that do not withdraw
/// it at a time its lock allows, as long as its number is within its
/// recipient's count.
proof fn lemma_receipt_survives(s: EscrowView, calls: Seq<EscrowCall>, recipient: Seq<char>, index: u32, receipt: ReceiptView)
    requires
        s.receipts.contains_key((recipient, index)),
        s.receipts[(recipient, index)] == receipt,
        s.counts.contains_key(recipient),
        s.counts[recipient] >= index,
        no_timely_withdrawal(calls, recipient, index, receipt.time_bound),
    ensures
        run_escrow(s, calls).receipts.contains_key((recipient, index)),
        run_escrow(s, calls).receipts[(recipient, index)] == receipt,
        run_escrow(s, calls).counts.contains_key(recipient),
        run_escrow(s, calls).counts[recipient] >= index,
    decreases calls.len(),
{
    if calls.len() > 0 {
        let prev = calls.drop_last();
        assert forall|j: int| 0 <= j < prev.len() implies match #[trigger] prev[j] {
            EscrowCall::Withdraw { recipient: r, index: i, ledger_timestamp, ledger_sequence } => (r, i)
                == (recipient, index) ==> !time_bound_holds(ledger_timestamp, receipt.time_bound),
            _ => true,
        } by {
            assert(prev[j] == calls[j]);
        }
        lemma_receipt_survives(s, prev, recipient, index, receipt);
        let last = calls[calls.len() - 1];
        assert(match last {
            EscrowCall::Withdraw { recipient: r, index: i, ledger_timestamp, ledger_sequence } => (r, i)
                == (recipient, index) ==> !time_bound_holds(ledger_timestamp, receipt.time_bound),
            _ => true,
        });
    }
}

/// Withdrawing a deposit gives back the receipt that was deposited, even
/// with other calls in between, as long as none of them withdrew it: a
/// deposit followed by any calls without a withdrawal of that receipt at a
/// time its lock allows, then a withdrawal at such a time, returns the
/// deposited receipt.
pub proof fn lemma_withdraw_returns_deposit_after_calls(
    s: EscrowView,
    depositor: Seq<char>,
    recipient: Seq<char>,
    token: Seq<char>,
    amount: i128,
    time_bound: TimeBound,
    deposit_sequence: u32,
    calls: Seq<EscrowCall>,
    now: u64,
    withdraw_sequence: u32,
)
    requires
        amount > 0,
        next_receipt_index(s, recipient) <= u32::MAX,
        no_timely_withdrawal(calls, recipient, next_receipt_index(s, recipient) as u32, time_bound),
        time_bound_holds(now, time_bound),
    ensures
        withdraw_outcome(
            run_escrow(deposit_outcome(s, depositor, recipient, token, amount, time_bound, deposit_sequence).1, calls),
            recipient,
            next_receipt_index(s, recipient) as u32,
            now,
            withdraw_sequence,
        ).0 == Ok::<(ReceiptView, u32), Error>((ReceiptView { amount, depositor, token, time_bound }, withdraw_sequence)),
{
    let index = next_receipt_index(s, recipient) as u32;
    let receipt = ReceiptView { amount, depositor, token, time_bound };
    let s1 = deposit_outcome(s, depositor, recipient, token, amount, time_bound, deposit_sequence).1;
    lemma_receipt_survives(s1, calls, recipient, index, receipt);
}

/// A receipt, once withdrawn, is never paid out again: after a successful
/// withdrawal and any calls, later deposits included, withdrawing the same
/// receipt finds none.
pub proof fn lemma_paid_out_once(
    s: EscrowView,
    recipient: Seq<char>,
    index: u32,
    now: u64,
    sequence: u32,
    calls: Seq<EscrowCall>,
    later: u64,
    later_sequence: u32,
)
    requires
        receipts_numbered(s),
        withdraw_outcome(s, recipient, index, now, sequence).0 is Ok,
    ensures
        withdraw_outcome(
            run_escrow(withdraw_outcome(s, recipient, index, now, sequence).1, calls),
            recipient,
            index,
            later,
            later_sequence,
        ).0 == Err::<(ReceiptView, u32), Error>(Error::NoReceiptsFound),
{
    lemma_stays_withdrawn(withdraw_outcome(s, recipient, index, now, sequence).1, calls, recipient, index);
}

/// A receipt number within its recipient's count, with no receipt stored
/// under it, never gets one again.
proof fn lemma_stays_withdrawn(s: EscrowView, calls: Seq<EscrowCall>, recipient: Seq<char>, index: u32)
    requires
        !s.receipts.contains_key((recipient, index)),
        s.counts.contains_key(recipient),
        s.counts[recipient] >= index,
    ensures
        !run_escrow(s, calls).receipts.contains_key((recipient, index)),
        run_escrow(s, calls).counts.contains_key(recipient),
        run_escrow(s, calls).counts[recipient] >= index,
    decreases calls.len(),
{
    if calls.len() > 0 {
        lemma_stays_withdrawn(s, calls.drop_last(), recipient, index);
    }
}

/// The admin after a series of `set_admin` calls: the last one's address,
/// or the first admin when there was none.
pub open spec fn last_admin(first: Seq<char>, calls: Seq<EscrowCall>) -> Seq<char>
    decreases calls.len(),
{
    if calls.len() == 0 {
        first
    } else if let EscrowCall::SetAdmin(a) = calls.last() {
        a
    } else {
        last_admin(first, calls.drop_last())
    }
}

/// After any calls, deposits and withdrawals included, the admin is the
/// address of the last `set_admin`, or the admin it had before them.
pub proof fn lemma_admin_after_calls(s: EscrowView, calls: Seq<EscrowCall>)
    requires
        s.admin is Some,
    ensures
        run_escrow(s, calls).admin == Some(last_admin(s.admin->0, calls)),
    decreases calls.len(),
{
    if calls.len() > 0 {
        lemma_admin_after_calls(s, calls.drop_last());
    }
}

/// The time lock compares full 64-bit times: a `Before(t)` lock is met at
/// `now` exactly when `now <= t`, an `After(t)` lock exactly when
/// `now >= t`.
pub proof fn lemma_time_lock_order(now: u64, t: u64)
    ensures
        time_bound_holds(now, TimeBound { kind: TimeBoundKind::Before, timestamp: t }) <==> now <= t,
        time_bound_holds(now, TimeBound { kind: TimeBoundKind::After, timestamp: t }) <==> now >= t,
{
}

/// A stored receipt is paid out exactly when its lock is met: with a
/// receipt stored under `(recipient, index)` whose lock is `Before(t)` or
/// `After(t)`, a withdrawal at `now` returns that very receipt and removes
/// it when `now <= t` (for `Before`) or `now >= t` (for `After`), and is
/// refused with `TimePredicateUnfulfilled`, changing nothing, otherwise.
pub proof fn lemma_withdraw_time_lock(s: EscrowView, recipient: Seq<char>, index: u32, now: u64, sequence: u32)
    requires
        s.receipts.contains_key((recipient, index)),
    ensures
        ({
            let receipt = s.receipts[(recipient, index)];
            let t = receipt.time_bound.timestamp;
            let met = match receipt.time_bound.kind {
                TimeBoundKind::Before => now <= t,
                TimeBoundKind::After => now >= t,
            };
            let (r, s2) = withdraw_outcome(s, recipient, index, now, sequence);
            &&& met ==> r == Ok::<(ReceiptView, u32), Error>((receipt, sequence))
            &&& met ==> !s2.receipts.contains_key((recipient, index))
            &&& met ==> s2.receipts == s.receipts.remove((recipient, index))
            &&& met ==> s2.counts == s.counts && s2.admin == s.admin
            &&& !met ==> r == Err::<(ReceiptView, u32), Error>(Error::TimePredicateUnfulfilled)
            &&& !met ==> s2 == s
        }),
{
}

/// A successful deposit returns the receipt it stores, made of exactly the
/// inputs: with a positive amount, the result is `Ok` with the ledger
/// sequence and a receipt whose amount, depositor, token and time lock are
/// the ones given, and that same receipt is stored under the recipient's
/// receipt number one past its count (one when it has none), which becomes
/// its count; a non-positive amount is refused with `NegativeAmount` and
/// changes nothing.
pub proof fn lemma_deposit_returns_stored_receipt(
    s: EscrowView,
    depositor: Seq<char>,
    recipient: Seq<char>,
    token: Seq<char>,
    amount: i128,
    time_bound: TimeBound,
    ledger_sequence: u32,
)
    requires
        amount <= 0 || !s.counts.contains_key(recipient) || s.counts[recipient] < u32::MAX,
    ensures
        ({
            let (r, s2) = deposit_outcome(s, depositor, recipient, token, amount, time_bound, ledger_sequence);
            let index: u32 = if s.counts.contains_key(recipient) { (s.counts[recipient] + 1) as u32 } else { 1 };
            &&& amount > 0 ==> r is Ok
            &&& amount > 0 ==> r->Ok_0.1 == ledger_sequence
            &&& amount > 0 ==> r->Ok_0.0.amount == amount
            &&& amount > 0 ==> r->Ok_0.0.depositor == depositor
            &&& amount > 0 ==> r->Ok_0.0.token == token
            &&& amount > 0 ==> r->Ok_0.0.time_bound == time_bound
            &&& amount > 0 ==> s2.receipts.contains_key((recipient, index))
            &&& amount > 0 ==> s2.receipts[(recipient, index)] == r->Ok_0.0
            &&& amount > 0 ==> s2.counts.contains_key(recipient) && s2.counts[recipient] == index
            &&& amount > 0 ==> s2.admin == s.admin
            &&& amount > 0 ==> forall|key: (Seq<char>, u32)|
                key != (recipient, index) ==> s2.receipts.contains_key(key) == s.receipts.contains_key(key)
                    && (s.receipts.contains_key(key) ==> s2.receipts[key] == s.receipts[key])
            &&& amount <= 0 ==> r == Err::<(ReceiptView, u32), Error>(Error::NegativeAmount) && s2 == s
        }),
{
}

} // verus!
