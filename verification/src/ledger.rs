//! The budget ledger: an append-only, insertion-ordered list of entries, each a
//! named, categorized amount of cents, with an exact running total.

use vstd::prelude::*;
use vstd::string::*;

use crate::format::format_cents;
use crate::format::spec_format_cents;

verus! {

/// One named, categorized monetary amount, held exactly as signed cents.
pub struct BudgetItem {
    pub name: String,
    pub amount_cents: i64,
    pub category: String,
}

impl BudgetItem {
    /// Pure construction: the entry holds exactly what it was given.
    pub fn new(name: String, amount_cents: i64, category: String) -> (item: BudgetItem)
        ensures
            item.name == name,
            item.amount_cents == amount_cents,
            item.category == category,
    {
        BudgetItem { name, amount_cents, category }
    }

    /// The text of the entry's display line: `name: $amount (category)`.
    pub open spec fn spec_display(self) -> Seq<char> {
        self.name@ + seq![':', ' ', '$'] + spec_format_cents(self.amount_cents as int) + seq![
            ' ',
            '(',
        ] + self.category@ + seq![')']
    }

    /// Render the entry as `name: $amount (category)`, the amount with exactly
    /// two digits after the decimal point.
    pub fn display_string(&self) -> (s: String)
        ensures
            s@ == self.spec_display(),
    {
        let mut s = self.name.clone();
        s.append(": $");
        let amt = format_cents(self.amount_cents);
        s.append(amt.as_str());
        s.append(" (");
        s.append(self.category.as_str());
        s.append(")");
        proof {
            reveal_strlit(": $");
            reveal_strlit(" (");
            reveal_strlit(")");
            assert((": $")@ =~= seq![':', ' ', '$']);
            assert((" (")@ =~= seq![' ', '(']);
            assert((")")@ =~= seq![')']);
            assert(s@ =~= self.spec_display());
        }
        s
    }

    /// An equal copy of the entry.
    pub fn duplicate(&self) -> (item: BudgetItem)
        ensures
            item == *self,
    {
        BudgetItem {
            name: self.name.clone(),
            amount_cents: self.amount_cents,
            category: self.category.clone(),
        }
    }
}

/// The sum of the entries' amounts, in cents.
pub open spec fn sum_cents(s: Seq<BudgetItem>) -> int
    decreases s.len(),
{
    if s.len() == 0 {
        0
    } else {
        sum_cents(s.drop_last()) + s.last().amount_cents
    }
}

/// Does the sum of the entries' amounts fit the machine's signed cents type?
pub open spec fn total_in_i64(s: Seq<BudgetItem>) -> bool {
    i64::MIN <= sum_cents(s) <= i64::MAX
}

/// The entries paired with their 1-based display positions.
pub open spec fn numbered(s: Seq<BudgetItem>) -> Seq<(int, BudgetItem)> {
    Seq::new(s.len(), |i: int| (i + 1, s[i]))
}

/// The in-memory, append-only list of budget entries, in insertion order.
pub struct Ledger {
    pub items: Vec<BudgetItem>,
}

impl View for Ledger {
    type V = Seq<BudgetItem>;

    open spec fn view(&self) -> Seq<BudgetItem> {
        self.items@
    }
}

impl Ledger {
    /// An empty ledger.
    pub fn new() -> (l: Ledger)
        ensures
            l@ == Seq::<BudgetItem>::empty(),
    {
        Ledger { items: Vec::new() }
    }

    /// How many entries the ledger holds.
    pub fn len(&self) -> (n: usize)
        ensures
            n == self@.len(),
    {
        self.items.len()
    }

    /// The entry at 0-based position `i`.
    pub fn get(&self, i: usize) -> (item: &BudgetItem)
        requires
            i < self@.len(),
        ensures
            *item == self@[i as int],
    {
        &self.items[i]
    }

    /// Add an entry at the end; every prior entry keeps its position.
    pub fn append(&mut self, item: BudgetItem)
        ensures
            final(self)@ == old(self)@.push(item),
    {
        self.items.push(item);
    }

    /// The entries in insertion order, each paired with its 1-based position.
    pub fn iterate(&self) -> (r: Vec<(usize, BudgetItem)>)
        ensures
            r@.len() == self@.len(),
            forall|i: int| #![trigger r@[i]]
                0 <= i < self@.len() ==> r@[i].0 as int == i + 1 && r@[i].1 == self@[i],
    {
        let n = self.items.len();
        let mut r: Vec<(usize, BudgetItem)> = Vec::new();
        let mut i: usize = 0;
        while i < n
            invariant
                i <= n,
                n == self@.len(),
                r@.len() == i,
                forall|j: int| #![trigger r@[j]]
                    0 <= j < i ==> r@[j].0 as int == j + 1 && r@[j].1 == self@[j],
            decreases n - i,
        {
            let item = self.items[i].duplicate();
            r.push((i + 1, item));
            i = i + 1;
        }
        r
    }

    /// The exact sum of the amounts, in a type wide enough never to overflow.
    fn total_wide(&self) -> (t: i128)
        ensures
            t as int == sum_cents(self@),
    {
        let n = self.items.len();
        let mut acc: i128 = 0;
        let mut i: usize = 0;
        while i < n
            invariant
                i <= n,
                n == self@.len(),
                acc as int == sum_cents(self@.take(i as int)),
                -(i as int) * 0x8000_0000_0000_0000 <= acc as int <= (i as int)
                    * 0x7FFF_FFFF_FFFF_FFFF,
            decreases n - i,
        {
            let v = self.items[i].amount_cents;
            proof {
                lemma_sum_take_snoc(self@, i as int);
                assert((i as int + 1) * 0x7FFF_FFFF_FFFF_FFFF == (i as int)
                    * 0x7FFF_FFFF_FFFF_FFFF + 0x7FFF_FFFF_FFFF_FFFF) by (nonlinear_arith);
                assert(-(i as int + 1) * 0x8000_0000_0000_0000 == -(i as int)
                    * 0x8000_0000_0000_0000 - 0x8000_0000_0000_0000) by (nonlinear_arith);
                assert((i as int + 1) * 0x7FFF_FFFF_FFFF_FFFF <= 0x1_0000_0000_0000_0000
                    * 0x7FFF_FFFF_FFFF_FFFF) by (nonlinear_arith)
                    requires
                        0 <= i as int + 1 <= 0x1_0000_0000_0000_0000,
                ;
                assert(-(i as int + 1) * 0x8000_0000_0000_0000 >= -(0x1_0000_0000_0000_0000
                    * 0x8000_0000_0000_0000)) by (nonlinear_arith)
                    requires
                        0 <= i as int + 1 <= 0x1_0000_0000_0000_0000,
                ;
            }
            acc = acc + (v as i128);
            i = i + 1;
        }
        proof {
            assert(self@.take(n as int) =~= self@);
        }
        acc
    }

    /// Does the current total fit the signed cents type?
    pub fn total_fits(&self) -> (b: bool)
        ensures
            b == total_in_i64(self@),
    {
        let t = self.total_wide();
        i64::MIN as i128 <= t && t <= i64::MAX as i128
    }

    /// The sum of all entries' amounts, recomputed in full on each call.
    pub fn total(&self) -> (t: i64)
        requires
            total_in_i64(self@),
        ensures
            t as int == sum_cents(self@),
    {
        let t = self.total_wide();
        t as i64
    }
}

/// Extending a prefix of entries by one adds exactly that entry's amount.
proof fn lemma_sum_take_snoc(s: Seq<BudgetItem>, i: int)
    requires
        0 <= i < s.len(),
    ensures
        sum_cents(s.take(i + 1)) == sum_cents(s.take(i)) + s[i].amount_cents,
{
    assert(s.take(i + 1).drop_last() =~= s.take(i));
    assert(s.take(i + 1).last() == s[i]);
}

/// Law: appending an entry adds exactly its amount to the ledger's sum; the
/// total is the exact sum of the amounts, however the appends were interleaved
/// with reads.
pub proof fn lemma_append_adds_amount(s: Seq<BudgetItem>, item: BudgetItem)
    ensures
        sum_cents(s.push(item)) == sum_cents(s) + item.amount_cents,
{
    assert(s.push(item).drop_last() =~= s);
    assert(s.push(item).last() == item);
}

/// Law: an append leaves every earlier entry at its position and places the new
/// entry last.
pub proof fn lemma_append_keeps_prior(s: Seq<BudgetItem>, item: BudgetItem)
    ensures
        s.push(item).len() == s.len() + 1,
        forall|i: int| 0 <= i < s.len() ==> s.push(item)[i] == s[i],
        s.push(item)[s.len() as int] == item,
{
}

/// Law: entries appended in order to an empty ledger are numbered in that
/// order — for three entries the numbered view is exactly (1, a), (2, b), (3, c).
pub proof fn lemma_three_appends_order(a: BudgetItem, b: BudgetItem, c: BudgetItem)
    ensures
        numbered(Seq::<BudgetItem>::empty().push(a).push(b).push(c)) =~= seq![
            (1int, a),
            (2int, b),
            (3int, c),
        ],
{
}

/// Law: the total is a function of the entries alone — two totals taken from
/// the same ledger, with no append between them, are identical.
pub proof fn lemma_total_deterministic(s: Seq<BudgetItem>, t1: int, t2: int)
    requires
        t1 == sum_cents(s),
        t2 == sum_cents(s),
    ensures
        t1 == t2,
{
}

} // verus!
