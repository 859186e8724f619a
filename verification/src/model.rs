//! The rows an import writes, and what it finds in the ledger.

use vstd::prelude::*;

use crate::amount;
use crate::amount::{Amount, Dec};
use crate::currency::Currency;
use crate::date;
use crate::date::Date;
use crate::text;

verus! {

/// The account an opening balance is posted against.
pub const OPENING_EQUITY: &'static str = "Equity:Opening-Balances";

/// The account the two sides of an exchange are posted against.
pub const CONVERSIONS: &'static str = "Equity:Conversions";

/// The tag of a record no statement has checked yet.
pub const UNVERIFIED_TAG: &'static str = "unverified";

/// Where a transaction comes from.
#[derive(Clone, Copy, PartialEq, Eq, Structural, Debug)]
pub enum Source {
    /// An importer.
    Import,
    /// Entered by hand.
    Manual,
    /// 天天記帳.
    Tiantian,
}

/// How a source is written.
pub open spec fn source_text(s: Source) -> Seq<char> {
    match s {
        Source::Import => "import"@,
        Source::Manual => "manual"@,
        Source::Tiantian => "tiantian"@,
    }
}

/// The source a text names.
pub open spec fn source_of(s: Seq<char>) -> Option<Source> {
    if s == "import"@ {
        Some(Source::Import)
    } else if s == "manual"@ {
        Some(Source::Manual)
    } else if s == "tiantian"@ {
        Some(Source::Tiantian)
    } else {
        None
    }
}

impl Source {
    pub fn text(&self) -> (r: &'static str)
        ensures
            r@ == source_text(*self),
    {
        match self {
            Source::Import => "import",
            Source::Manual => "manual",
            Source::Tiantian => "tiantian",
        }
    }

    /// The source a text names.
    pub fn parse(s: &str) -> (r: Option<Source>)
        ensures
            r == source_of(s@),
    {
        if text::same_text(s, "import") {
            Some(Source::Import)
        } else if text::same_text(s, "manual") {
            Some(Source::Manual)
        } else if text::same_text(s, "tiantian") {
            Some(Source::Tiantian)
        } else {
            None
        }
    }
}

/// A source's text is read back as the source.
pub proof fn source_reads_back(s: Source)
    ensures
        source_of(source_text(s)) == Some(s),
{
    reveal_strlit("import");
    reveal_strlit("manual");
    reveal_strlit("tiantian");
    assert("import"@[0] == 'i' && "manual"@[0] == 'm' && "tiantian"@[0] == 't');
}

/// One leg of a transaction.
#[derive(Clone, Debug, PartialEq)]
pub struct Posting {
    pub account: String,
    pub amount: Amount,
    pub currency: Currency,
    pub tags: Option<String>,
}

/// What a leg is.
#[verifier::ext_equal]
pub struct PostingV {
    pub account: Seq<char>,
    pub amount: Dec,
    pub currency: Currency,
    pub tags: Option<Seq<char>>,
}

impl View for Posting {
    type V = PostingV;

    open spec fn view(&self) -> PostingV {
        PostingV {
            account: self.account@,
            amount: self.amount@,
            currency: self.currency,
            tags: text::opt(self.tags),
        }
    }
}

pub open spec fn posting_views(v: Seq<Posting>) -> Seq<PostingV> {
    v.map_values(|p: Posting| p@)
}

/// An untagged leg.
pub open spec fn leg(account: Seq<char>, a: Dec, c: Currency) -> PostingV {
    PostingV { account, amount: a, currency: c, tags: None }
}

/// What legs move in a currency, in the smallest unit of an amount.
pub open spec fn net(legs: Seq<PostingV>, c: Currency) -> int
    decreases legs.len(),
{
    if legs.len() == 0 {
        0
    } else {
        net(legs.drop_last(), c) + (if legs.last().currency == c {
            amount::worth(legs.last().amount)
        } else {
            0
        })
    }
}

impl Posting {
    /// An untagged leg.
    pub fn new(account: &str, amount: Amount, currency: Currency) -> (r: Posting)
        ensures
            r@ == leg(account@, amount@, currency),
    {
        Posting { account: text::copy(account), amount, currency, tags: None }
    }
}

/// A transaction to insert.
#[derive(Clone, Debug, PartialEq)]
pub struct Transaction {
    pub date: Date,
    pub payee: Option<String>,
    pub narration: Option<String>,
    pub source: Source,
    pub external_ref: Option<String>,
    pub import_batch_id: Option<i64>,
    pub postings: Vec<Posting>,
}

/// What a transaction is.
#[verifier::ext_equal]
pub struct TransactionV {
    pub date: int,
    pub payee: Option<Seq<char>>,
    pub narration: Option<Seq<char>>,
    pub source: Source,
    pub external_ref: Option<Seq<char>>,
    pub import_batch_id: Option<i64>,
    pub postings: Seq<PostingV>,
}

impl View for Transaction {
    type V = TransactionV;

    open spec fn view(&self) -> TransactionV {
        TransactionV {
            date: self.date@,
            payee: text::opt(self.payee),
            narration: text::opt(self.narration),
            source: self.source,
            external_ref: text::opt(self.external_ref),
            import_batch_id: self.import_batch_id,
            postings: posting_views(self.postings@),
        }
    }
}

/// One posting already on an account.
#[derive(Clone, Debug, PartialEq)]
pub struct LedgerPosting {
    pub date: Date,
    pub amount: Amount,
    /// Its transaction's ref, then any further ones it stands for.
    pub refs: Vec<String>,
    /// Where its transaction's other legs post.
    pub other_accounts: Vec<String>,
    /// Its transaction also posts to the opening equity.
    pub opening: bool,
    pub transaction_id: i64,
    /// Tagged [`UNVERIFIED_TAG`]: a record no statement has checked yet.
    pub unverified: bool,
}

/// What a posting already on an account is.
#[verifier::ext_equal]
pub struct HeldV {
    pub date: int,
    pub amount: Dec,
    pub refs: Seq<Seq<char>>,
    pub other_accounts: Seq<Seq<char>>,
    pub opening: bool,
    pub transaction_id: int,
    pub unverified: bool,
}

impl View for LedgerPosting {
    type V = HeldV;

    open spec fn view(&self) -> HeldV {
        HeldV {
            date: self.date@,
            amount: self.amount@,
            refs: text::texts(self.refs@),
            other_accounts: text::texts(self.other_accounts@),
            opening: self.opening,
            transaction_id: self.transaction_id as int,
            unverified: self.unverified,
        }
    }
}

pub open spec fn held_views(v: Seq<LedgerPosting>) -> Seq<HeldV> {
    v.map_values(|p: LedgerPosting| p@)
}

/// An unverified record a statement line checked, and what that leaves
/// unchecked.
#[derive(Clone, Debug, PartialEq)]
pub struct Verification {
    pub transaction_id: i64,
    /// The line's date, or `None` to leave the record on its own: a
    /// transaction has one date, so re-dating moves its every leg.
    pub date: Option<Date>,
    pub statement_ref: String,
    /// Legs on these accounts stay unverified: no line here vouched for them.
    pub unchecked: Vec<String>,
}

/// What a verification is.
#[verifier::ext_equal]
pub struct VerificationV {
    pub transaction_id: int,
    pub date: Option<int>,
    pub statement_ref: Seq<char>,
    pub unchecked: Seq<Seq<char>>,
}

impl View for Verification {
    type V = VerificationV;

    open spec fn view(&self) -> VerificationV {
        VerificationV {
            transaction_id: self.transaction_id as int,
            date: date::opt(self.date),
            statement_ref: self.statement_ref@,
            unchecked: text::texts(self.unchecked@),
        }
    }
}

pub open spec fn verification_views(v: Seq<Verification>) -> Seq<VerificationV> {
    v.map_values(|x: Verification| x@)
}

} // verus!
