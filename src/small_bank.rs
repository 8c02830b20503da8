use vstd::prelude::*;
use crate::access::{Access, AccessKind};

verus! {

pub const MAX_DEPOSIT: u32 = 50;
pub const MAX_AMOUNT: u32 = 4294967295;
pub const SPLIT_PARTY_SIZE_MIN: u32 = 3;
pub const SPLIT_PARTY_SIZE_MAX: u32 = 5;
pub const INITIAL_BALANCE: u32 = 1000;

/// One balance change a transaction makes.
#[derive(Clone, Copy, Debug, PartialEq, Eq, Structural)]
pub enum BankOp {
    DepositChecking(u32, u32),
    DepositSaving(u32, u32),
    WithdrawChecking(u32, u32),
    WithdrawSaving(u32, u32),
    /// Moves the whole saving balance of the user to checking.
    Amalgamate(u32),
}

/// A deposit applies only while the balance stays strictly below the maximum.
pub open spec fn deposit(balance: u32, amount: u32) -> u32 {
    if MAX_AMOUNT - balance > amount {
        (balance + amount) as u32
    } else {
        balance
    }
}

/// A withdrawal applies only when the balance covers it.
pub open spec fn withdraw(balance: u32, amount: u32) -> u32 {
    if balance >= amount {
        (balance - amount) as u32
    } else {
        balance
    }
}

/// The user an operation touches.
pub open spec fn op_user(op: BankOp) -> u32 {
    match op {
        BankOp::DepositChecking(u, _) => u,
        BankOp::DepositSaving(u, _) => u,
        BankOp::WithdrawChecking(u, _) => u,
        BankOp::WithdrawSaving(u, _) => u,
        BankOp::Amalgamate(u) => u,
    }
}

/// The checking and saving balances after one operation.
pub open spec fn apply_op(checking: Seq<u32>, saving: Seq<u32>, op: BankOp) -> (Seq<u32>, Seq<u32>) {
    match op {
        BankOp::DepositChecking(u, a) => (checking.update(u as int, deposit(checking[u as int], a)), saving),
        BankOp::DepositSaving(u, a) => (checking, saving.update(u as int, deposit(saving[u as int], a))),
        BankOp::WithdrawChecking(u, a) => (checking.update(u as int, withdraw(checking[u as int], a)), saving),
        BankOp::WithdrawSaving(u, a) => (checking, saving.update(u as int, withdraw(saving[u as int], a))),
        BankOp::Amalgamate(u) => {
            let s = saving[u as int];
            let c = checking[u as int];
            if s <= MAX_AMOUNT - c {
                (checking.update(u as int, deposit(c, s)), saving.update(u as int, withdraw(s, s)))
            } else {
                (checking, saving)
            }
        },
    }
}

/// The balances after a sequence of operations, applied in order.
pub open spec fn apply_ops(checking: Seq<u32>, saving: Seq<u32>, ops: Seq<BankOp>) -> (Seq<u32>, Seq<u32>)
    decreases ops.len(),
{
    if ops.len() == 0 {
        (checking, saving)
    } else {
        let (c, s) = apply_ops(checking, saving, ops.drop_last());
        apply_op(c, s, ops.last())
    }
}

/// The big-endian 32-bit integer at `off`.
pub open spec fn be32(tx: Seq<u8>, off: int) -> u32 {
    (tx[off] as int * 16777216 + tx[off + 1] as int * 65536 + tx[off + 2] as int * 256 + tx[off + 3] as int) as u32
}

/// The `k` (user, amount) entries of a split from byte `start`, as withdrawals or deposits.
pub open spec fn split_ops(tx: Seq<u8>, start: int, k: nat, is_deposit: bool) -> Seq<BankOp>
    decreases k,
{
    if k == 0 {
        Seq::empty()
    } else {
        let prev = split_ops(tx, start, (k - 1) as nat, is_deposit);
        let off = start + 8 * (k - 1);
        let user = be32(tx, off);
        let amount = be32(tx, off + 4);
        prev.push(if is_deposit { BankOp::DepositChecking(user, amount) } else { BankOp::WithdrawChecking(user, amount) })
    }
}

/// The operations a SmallBank transaction encodes, or none when it is too
/// short for its fields. Byte 0 is the sample flag, byte 1 the opcode, and the
/// fields follow as big-endian 32-bit integers.
pub open spec fn tx_ops(tx: Seq<u8>) -> Option<Seq<BankOp>> {
    if tx.len() < 2 {
        None
    } else {
        let op = tx[1];
        if op == 0 || op == 1 || op == 2 {
            if tx.len() < 10 {
                None
            } else {
                let u = be32(tx, 2);
                let a = be32(tx, 6);
                Some(seq![if op == 0 { BankOp::DepositSaving(u, a) } else if op == 1 { BankOp::DepositChecking(u, a) } else { BankOp::WithdrawChecking(u, a) }])
            }
        } else if op == 3 {
            if tx.len() < 14 {
                None
            } else {
                let a = be32(tx, 10);
                Some(seq![BankOp::WithdrawChecking(be32(tx, 2), a), BankOp::DepositChecking(be32(tx, 6), a)])
            }
        } else if op == 4 {
            if tx.len() < 10 {
                None
            } else {
                let payors = be32(tx, 2) as nat;
                let payees = be32(tx, 6) as nat;
                if tx.len() < 10 + 8 * (payors + payees) {
                    None
                } else {
                    Some(split_ops(tx, 10, payors, false) + split_ops(tx, 10 + 8 * (payors as int), payees, true))
                }
            }
        } else if op == 5 {
            if tx.len() < 6 {
                None
            } else {
                Some(seq![BankOp::Amalgamate(be32(tx, 2))])
            }
        } else {
            Some(Seq::empty())
        }
    }
}

/// The big-endian 32-bit integer at `off`.
pub fn read_be32(tx: &Vec<u8>, off: usize) -> (r: u32)
    requires
        off + 4 <= tx@.len(),
    ensures
        r == be32(tx@, off as int),
{
    let len = tx.len();
    let b0 = tx[off] as u32;
    let b1 = tx[off + 1] as u32;
    let b2 = tx[off + 2] as u32;
    let b3 = tx[off + 3] as u32;
    assert(b0 * 16777216 + b1 * 65536 + b2 * 256 + b3 <= 4294967295) by (nonlinear_arith)
        requires b0 <= 255, b1 <= 255, b2 <= 255, b3 <= 255;
    b0 * 16777216 + b1 * 65536 + b2 * 256 + b3
}

/// The `k` (user, amount) entries of a split from byte `start`.
fn read_split(tx: &Vec<u8>, start: usize, k: u32, is_deposit: bool, ops: &mut Vec<BankOp>)
    requires
        start + 8 * (k as int) <= tx@.len(),
    ensures
        final(ops)@ == old(ops)@ + split_ops(tx@, start as int, k as nat, is_deposit),
{
    let ghost base = ops@;
    let len = tx.len();
    let mut i: u32 = 0;
    while i < k
        invariant
            i <= k,
            start + 8 * (k as int) <= tx@.len(),
            tx@.len() <= usize::MAX,
            ops@ == base + split_ops(tx@, start as int, i as nat, is_deposit),
        decreases k - i,
    {
        let off = start + 8 * (i as usize);
        let user = read_be32(tx, off);
        let amount = read_be32(tx, off + 4);
        if is_deposit {
            ops.push(BankOp::DepositChecking(user, amount));
        } else {
            ops.push(BankOp::WithdrawChecking(user, amount));
        }
        assert(ops@ =~= base + split_ops(tx@, start as int, (i + 1) as nat, is_deposit));
        i += 1;
    }
}

/// The operations a transaction encodes, or none when it is too short.
pub fn transaction_ops(tx: &Vec<u8>) -> (r: Option<Vec<BankOp>>)
    ensures
        r is Some <==> tx_ops(tx@) is Some,
        r matches Some(ops) ==> tx_ops(tx@) == Some(ops@),
{
    if tx.len() < 2 {
        return None;
    }
    let op = tx[1];
    if op == 0 || op == 1 || op == 2 {
        if tx.len() < 10 {
            return None;
        }
        let u = read_be32(tx, 2);
        let a = read_be32(tx, 6);
        let o = if op == 0 { BankOp::DepositSaving(u, a) } else if op == 1 { BankOp::DepositChecking(u, a) } else { BankOp::WithdrawChecking(u, a) };
        let r = vec![o];
        assert(r@ =~= seq![o]);
        Some(r)
    } else if op == 3 {
        if tx.len() < 14 {
            return None;
        }
        let a = read_be32(tx, 10);
        let r = vec![BankOp::WithdrawChecking(read_be32(tx, 2), a), BankOp::DepositChecking(read_be32(tx, 6), a)];
        assert(r@ =~= seq![BankOp::WithdrawChecking(be32(tx@, 2), a), BankOp::DepositChecking(be32(tx@, 6), a)]);
        Some(r)
    } else if op == 4 {
        if tx.len() < 10 {
            return None;
        }
        let payors = read_be32(tx, 2);
        let payees = read_be32(tx, 6);
        let room = tx.len() - 10;
        if (room / 8) < (payors as usize) || (room / 8) - (payors as usize) < (payees as usize) {
            return None;
        }
        let mut ops: Vec<BankOp> = Vec::new();
        read_split(tx, 10, payors, false, &mut ops);
        read_split(tx, 10 + 8 * (payors as usize), payees, true, &mut ops);
        assert(ops@ =~= split_ops(tx@, 10, payors as nat, false) + split_ops(tx@, 10 + 8 * (payors as int), payees as nat, true));
        Some(ops)
    } else if op == 5 {
        if tx.len() < 6 {
            return None;
        }
        let r = vec![BankOp::Amalgamate(read_be32(tx, 2))];
        assert(r@ =~= seq![BankOp::Amalgamate(be32(tx@, 2))]);
        Some(r)
    } else {
        let r: Vec<BankOp> = Vec::new();
        assert(r@ =~= Seq::<BankOp>::empty());
        Some(r)
    }
}

/// The conflict oracle: what a SmallBank transaction reads or writes. Reads
/// (opcode 6 and above) read one user; every other kind writes the users its
/// operations touch. Keys are user ids.
pub open spec fn tx_access_keys(tx: Seq<u8>) -> Seq<u32> {
    match tx_ops(tx) {
        Some(ops) => if tx[1] >= 6 {
            if tx.len() >= 6 { seq![be32(tx, 2)] } else { Seq::empty() }
        } else {
            ops.map_values(|o: BankOp| op_user(o))
        },
        None => Seq::empty(),
    }
}

/// What the conflict oracle reports for a transaction: reads for opcode 6 and
/// above, writes otherwise, over the user ids it names.
pub fn transaction_access(tx: &Vec<u8>) -> (r: Access)
    ensures
        r.kind == (if tx@.len() >= 2 && tx@[1] >= 6 { AccessKind::Read } else { AccessKind::Write }),
        r.keys@ == tx_access_keys(tx@),
{
    let kind = if tx.len() >= 2 && tx[1] >= 6 { AccessKind::Read } else { AccessKind::Write };
    let mut keys: Vec<u32> = Vec::new();
    match transaction_ops(tx) {
        Some(ops) => {
            if tx[1] >= 6 {
                if tx.len() >= 6 {
                    keys.push(read_be32(tx, 2));
                    assert(keys@ =~= seq![be32(tx@, 2)]);
                }
            } else {
                let mut k: usize = 0;
                while k < ops.len()
                    invariant
                        0 <= k <= ops@.len(),
                        keys@ == ops@.take(k as int).map_values(|o: BankOp| op_user(o)),
                    decreases ops@.len() - k,
                {
                    let u = match ops[k] {
                        BankOp::DepositChecking(u, _) => u,
                        BankOp::DepositSaving(u, _) => u,
                        BankOp::WithdrawChecking(u, _) => u,
                        BankOp::WithdrawSaving(u, _) => u,
                        BankOp::Amalgamate(u) => u,
                    };
                    keys.push(u);
                    assert(keys@ =~= ops@.take(k as int + 1).map_values(|o: BankOp| op_user(o)));
                    k += 1;
                }
                assert(ops@.take(k as int) =~= ops@);
            }
        },
        None => {},
    }
    Access { kind, keys }
}

/// The balances of the SmallBank benchmark: a checking and a saving account per user.
pub struct SmallBank {
    pub checking_accounts: Vec<u32>,
    pub saving_accounts: Vec<u32>,
}

impl SmallBank {
    pub open spec fn wf(&self) -> bool {
        self.checking_accounts@.len() == self.saving_accounts@.len()
    }

    /// Every user in `ops` has accounts.
    pub open spec fn users_known(&self, ops: Seq<BankOp>) -> bool {
        forall|i: int| 0 <= i < ops.len() ==> (op_user(#[trigger] ops[i]) as int) < self.checking_accounts@.len()
    }

    /// `n_users` users, each with 1000 on both accounts.
    pub fn new(n_users: u64) -> (r: SmallBank)
        requires
            n_users <= usize::MAX,
        ensures
            r.wf(),
            r.checking_accounts@.len() == n_users,
            forall|i: int| 0 <= i < n_users ==> r.checking_accounts@[i] == INITIAL_BALANCE && r.saving_accounts@[i] == INITIAL_BALANCE,
    {
        let mut checking_accounts: Vec<u32> = Vec::new();
        let mut saving_accounts: Vec<u32> = Vec::new();
        let mut i: u64 = 0;
        while i < n_users
            invariant
                i <= n_users,
                checking_accounts@.len() == i,
                saving_accounts@.len() == i,
                forall|j: int| 0 <= j < i ==> checking_accounts@[j] == INITIAL_BALANCE && saving_accounts@[j] == INITIAL_BALANCE,
            decreases n_users - i,
        {
            checking_accounts.push(INITIAL_BALANCE);
            saving_accounts.push(INITIAL_BALANCE);
            i += 1;
        }
        SmallBank { checking_accounts, saving_accounts }
    }

    pub fn deposit_checking(&mut self, user_id: u32, amount: u32)
        requires
            old(self).wf(),
            (user_id as int) < old(self).checking_accounts@.len(),
        ensures
            final(self).wf(),
            (final(self).checking_accounts@, final(self).saving_accounts@) == apply_op(
                old(self).checking_accounts@, old(self).saving_accounts@, BankOp::DepositChecking(user_id, amount)),
    {
        let u = user_id as usize;
        if MAX_AMOUNT - self.checking_accounts[u] > amount {
            let b = self.checking_accounts[u] + amount;
            self.checking_accounts.set(u, b);
        }
        assert(self.checking_accounts@ =~= old(self).checking_accounts@.update(u as int, deposit(old(self).checking_accounts@[u as int], amount)));
    }

    pub fn deposit_saving(&mut self, user_id: u32, amount: u32)
        requires
            old(self).wf(),
            (user_id as int) < old(self).checking_accounts@.len(),
        ensures
            final(self).wf(),
            (final(self).checking_accounts@, final(self).saving_accounts@) == apply_op(
                old(self).checking_accounts@, old(self).saving_accounts@, BankOp::DepositSaving(user_id, amount)),
    {
        let u = user_id as usize;
        if MAX_AMOUNT - self.saving_accounts[u] > amount {
            let b = self.saving_accounts[u] + amount;
            self.saving_accounts.set(u, b);
        }
        assert(self.saving_accounts@ =~= old(self).saving_accounts@.update(u as int, deposit(old(self).saving_accounts@[u as int], amount)));
    }

    pub fn withdraw_checking(&mut self, user_id: u32, amount: u32)
        requires
            old(self).wf(),
            (user_id as int) < old(self).checking_accounts@.len(),
        ensures
            final(self).wf(),
            (final(self).checking_accounts@, final(self).saving_accounts@) == apply_op(
                old(self).checking_accounts@, old(self).saving_accounts@, BankOp::WithdrawChecking(user_id, amount)),
    {
        let u = user_id as usize;
        if self.checking_accounts[u] >= amount {
            let b = self.checking_accounts[u] - amount;
            self.checking_accounts.set(u, b);
        }
        assert(self.checking_accounts@ =~= old(self).checking_accounts@.update(u as int, withdraw(old(self).checking_accounts@[u as int], amount)));
    }

    pub fn withdraw_saving(&mut self, user_id: u32, amount: u32)
        requires
            old(self).wf(),
            (user_id as int) < old(self).checking_accounts@.len(),
        ensures
            final(self).wf(),
            (final(self).checking_accounts@, final(self).saving_accounts@) == apply_op(
                old(self).checking_accounts@, old(self).saving_accounts@, BankOp::WithdrawSaving(user_id, amount)),
    {
        let u = user_id as usize;
        if self.saving_accounts[u] >= amount {
            let b = self.saving_accounts[u] - amount;
            self.saving_accounts.set(u, b);
        }
        assert(self.saving_accounts@ =~= old(self).saving_accounts@.update(u as int, withdraw(old(self).saving_accounts@[u as int], amount)));
    }

    pub fn get_checking_amount(&self, user_id: u32) -> (r: u32)
        requires
            (user_id as int) < self.checking_accounts@.len(),
        ensures
            r == self.checking_accounts@[user_id as int],
    {
        self.checking_accounts[user_id as usize]
    }

    pub fn get_saving_amount(&self, user_id: u32) -> (r: u32)
        requires
            self.wf(),
            (user_id as int) < self.checking_accounts@.len(),
        ensures
            r == self.saving_accounts@[user_id as int],
    {
        self.saving_accounts[user_id as usize]
    }

    /// Applies one operation.
    pub fn apply(&mut self, op: BankOp)
        requires
            old(self).wf(),
            (op_user(op) as int) < old(self).checking_accounts@.len(),
        ensures
            final(self).wf(),
            (final(self).checking_accounts@, final(self).saving_accounts@) == apply_op(
                old(self).checking_accounts@, old(self).saving_accounts@, op),
    {
        match op {
            BankOp::DepositChecking(u, a) => self.deposit_checking(u, a),
            BankOp::DepositSaving(u, a) => self.deposit_saving(u, a),
            BankOp::WithdrawChecking(u, a) => self.withdraw_checking(u, a),
            BankOp::WithdrawSaving(u, a) => self.withdraw_saving(u, a),
            BankOp::Amalgamate(u) => {
                let saving_amount = self.get_saving_amount(u);
                if saving_amount <= MAX_AMOUNT - self.get_checking_amount(u) {
                    self.withdraw_saving(u, saving_amount);
                    self.deposit_checking(u, saving_amount);
                }
            },
        }
    }

    /// Executes a transaction: when it decodes and every user it names has
    /// accounts, its operations are applied in order and `true` comes back;
    /// otherwise nothing changes and `false` comes back.
    pub fn execute_transaction(&mut self, tx: &Vec<u8>) -> (r: bool)
        requires
            old(self).wf(),
        ensures
            final(self).wf(),
            r == (tx_ops(tx@) matches Some(ops) && old(self).users_known(ops)),
            r ==> (final(self).checking_accounts@, final(self).saving_accounts@) == apply_ops(
                old(self).checking_accounts@, old(self).saving_accounts@, tx_ops(tx@).unwrap()),
            !r ==> final(self).checking_accounts@ == old(self).checking_accounts@ && final(self).saving_accounts@ == old(self).saving_accounts@,
    {
        let ops = match transaction_ops(tx) {
            Some(ops) => ops,
            None => return false,
        };
        let n = self.checking_accounts.len();
        let mut k: usize = 0;
        while k < ops.len()
            invariant
                0 <= k <= ops@.len(),
                n == self.checking_accounts@.len(),
                self.checking_accounts@ == old(self).checking_accounts@,
                self.saving_accounts@ == old(self).saving_accounts@,
                self.wf(),
                tx_ops(tx@) == Some(ops@),
                forall|i: int| 0 <= i < k ==> (op_user(#[trigger] ops@[i]) as int) < n,
            decreases ops@.len() - k,
        {
            let u = match ops[k] {
                BankOp::DepositChecking(u, _) => u,
                BankOp::DepositSaving(u, _) => u,
                BankOp::WithdrawChecking(u, _) => u,
                BankOp::WithdrawSaving(u, _) => u,
                BankOp::Amalgamate(u) => u,
            };
            if (u as usize) >= n {
                assert(!old(self).users_known(ops@)) by {
                    assert(op_user(ops@[k as int]) == u);
                }
                return false;
            }
            k += 1;
        }
        let mut k: usize = 0;
        while k < ops.len()
            invariant
                0 <= k <= ops@.len(),
                self.wf(),
                self.checking_accounts@.len() == n,
                forall|i: int| 0 <= i < ops@.len() ==> (op_user(#[trigger] ops@[i]) as int) < n,
                (self.checking_accounts@, self.saving_accounts@) == apply_ops(
                    old(self).checking_accounts@, old(self).saving_accounts@, ops@.take(k as int)),
            decreases ops@.len() - k,
        {
            let op = ops[k];
            assert(ops@.take(k as int + 1).drop_last() =~= ops@.take(k as int));
            self.apply(op);
            k += 1;
        }
        assert(ops@.take(k as int) =~= ops@);
        true
    }
}

} // verus!
