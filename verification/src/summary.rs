//! What a build produced, for the caller to report.

use vstd::prelude::*;

use crate::date;
use crate::date::Date;
use crate::text;

verus! {

/// What a run produced, for the caller to report.
#[derive(Debug)]
pub struct Summary {
    /// The file the build wrote; `None` when the model was only assembled.
    pub output: Option<String>,
    pub records_start: Option<Date>,
    /// Statement lines before `records_start`, folded into openings.
    pub folded: usize,
    /// Conversions among the internal transfers.
    pub converted: usize,
    /// Openings a statement already covers, as "account currency", in order.
    pub superseded_openings: Vec<String>,
    /// First date covered by a statement; everything earlier is backfill.
    pub anchor: Date,
    pub backfilled: usize,
    pub categorised: usize,
    pub internal: usize,
    pub in_transit: usize,
    /// Debits the bank itself reversed (錯誤更正, 取消轉帳), each booked with
    /// its reversal.
    pub reversed: usize,
    pub uncategorised: usize,
    /// Records emitted for accounts that have no statement.
    pub other_accounts: usize,
    /// Per-account balance assertions checking the ledger against 天天記帳.
    pub balance_assertions: usize,
    /// 天天記帳 records touching 國泰 that no statement line matched. Their far
    /// side is still emitted, but the near side lands in an uncategorised
    /// bucket — a rising count means the matcher is losing ground.
    pub unmatched_records: usize,
    /// Records of a statement account from before its statement begins, which
    /// carry its balance up to the statement's opening.
    pub carried: usize,
    /// 天天記帳 names with no entry in mapping.toml, in order.
    pub unmapped: Vec<String>,
    /// `[overrides]` ids that matched no record in the exports, in order. A
    /// correction is keyed by a 36-character UUID, so a mistyped one silently
    /// corrects nothing; this is the only thing that would say so.
    pub stale_overrides: Vec<String>,
}

/// How a count is reported: not at all where it is 0.
pub open spec fn counted(n: usize, what: Seq<char>) -> Seq<char> {
    if n > 0 {
        "  "@ + text::digits(n as nat) + what + "\n"@
    } else {
        Seq::empty()
    }
}

/// The texts as `Debug` prints a set of them.
pub open spec fn debug_set(v: Seq<Seq<char>>) -> Seq<char> {
    "{"@ + text::joined(v.map_values(|s: Seq<char>| text::debug_text(s)), ", "@) + "}"@
}

/// How a set is reported: not at all where it is empty.
pub open spec fn listed(v: Seq<Seq<char>>, what: Seq<char>) -> Seq<char> {
    if v.len() > 0 {
        what + debug_set(v) + "\n"@
    } else {
        Seq::empty()
    }
}

/// The file written, and what was folded into openings or backfilled.
pub open spec fn head(s: Summary) -> Seq<char> {
    (match s.output {
        Some(path) => "wrote "@ + path@ + "\n"@,
        None => Seq::empty(),
    }) + (match s.records_start {
        Some(start) => counted(
            s.folded,
            " statement lines before the records begin ("@ + date::printed(start@)
                + ") folded into opening balances"@,
        ),
        None => Seq::empty(),
    }) + counted(
        s.backfilled,
        " pre-"@ + date::printed(s.anchor@)
            + " records from 天天記帳 (derived opening balance)"@,
    )
}

/// How the statement lines were booked.
pub open spec fn booked(s: Summary) -> Seq<char> {
    "  "@ + text::digits(s.categorised as nat) + " categorised from 天天記帳, "@ + text::digits(
        s.internal as nat,
    ) + " internal transfers paired, "@ + text::digits(s.in_transit as nat)
        + " in transit via clearing, "@ + text::digits(s.uncategorised as nat)
        + " uncategorised\n"@
}

/// What else there is to say.
pub open spec fn details(s: Summary) -> Seq<char> {
    counted(s.converted, " of the internal transfers are currency conversions"@) + counted(
        s.reversed,
        " bank reversals booked with the debit they undid"@,
    ) + counted(
        s.other_accounts,
        " records for accounts with no statement, from 天天記帳"@,
    ) + counted(
        s.balance_assertions,
        " balance assertions checking the ledger against 天天記帳"@,
    ) + counted(
        s.unmatched_records,
        " 天天記帳 records matched no statement line (far side kept, near side uncategorised)"@,
    ) + counted(
        s.carried,
        " records carry a statement account's balance up to its first statement"@,
    )
}

/// The names and openings that need attention.
pub open spec fn notices(s: Summary) -> Seq<char> {
    listed(text::texts(s.superseded_openings@), "  openings superseded by a statement: "@) + listed(
        text::texts(s.unmapped@),
        "  unmapped names in mapping.toml: "@,
    ) + listed(
        text::texts(s.stale_overrides@),
        "  [overrides] ids matching no record, correcting nothing: "@,
    )
}

fn count_line(n: usize, what: &str) -> (r: String)
    ensures
        r@ == counted(n, what@),
{
    let mut out: String = String::new();
    if n > 0 {
        out.append("  ");
        out.append(text::number(n).as_str());
        out.append(what);
        out.append("\n");
    }
    assert(out@ =~= counted(n, what@));
    out
}

/// The texts as `Debug` prints a set of them.
pub(crate) fn debug_set_of(v: &Vec<String>) -> (r: String)
    ensures
        r@ == debug_set(text::texts(v@)),
{
    let ghost all = text::texts(v@).map_values(|s: Seq<char>| text::debug_text(s));
    let mut quoted: Vec<String> = Vec::new();
    let mut i: usize = 0;
    assert(text::texts(quoted@) =~= all.take(0));
    while i < v.len()
        invariant
            i <= v@.len(),
            all == text::texts(v@).map_values(|s: Seq<char>| text::debug_text(s)),
            text::texts(quoted@) == all.take(i as int),
        decreases v@.len() - i,
    {
        let ghost before = quoted@;
        let q = text::quoted(v[i].as_str());
        quoted.push(q);
        assert(text::texts(quoted@) =~= text::texts(before).push(q@));
        assert(all.take(i as int + 1) =~= all.take(i as int).push(all[i as int]));
        i = i + 1;
    }
    assert(all.take(i as int) =~= all);
    assert(text::texts(quoted@).subrange(0, quoted@.len() as int) =~= all);
    let mut out = text::copy("{");
    out.append(text::join(quoted.as_slice(), 0, quoted.len(), ", ").as_str());
    out.append("}");
    out
}

fn list_line(v: &Vec<String>, what: &str) -> (r: String)
    ensures
        r@ == listed(text::texts(v@), what@),
{
    let mut out: String = String::new();
    assert(text::texts(v@).len() == v@.len());
    if v.len() > 0 {
        out.append(what);
        out.append(debug_set_of(v).as_str());
        out.append("\n");
    }
    assert(out@ =~= listed(text::texts(v@), what@));
    out
}

impl Summary {
    fn head(&self) -> (r: String)
        ensures
            r@ == head(*self),
    {
        let mut out: String = String::new();
        if let Some(path) = &self.output {
            out.append("wrote ");
            out.append(path.as_str());
            out.append("\n");
        }
        let ghost first = out@;
        if let Some(start) = self.records_start {
            let mut what = text::copy(" statement lines before the records begin (");
            what.append(start.text().as_str());
            what.append(") folded into opening balances");
            out.append(count_line(self.folded, what.as_str()).as_str());
        }
        let mut what = text::copy(" pre-");
        what.append(self.anchor.text().as_str());
        what.append(" records from 天天記帳 (derived opening balance)");
        out.append(count_line(self.backfilled, what.as_str()).as_str());
        assert(out@ =~= head(*self));
        out
    }

    fn booked(&self) -> (r: String)
        ensures
            r@ == booked(*self),
    {
        let mut out = text::copy("  ");
        out.append(text::number(self.categorised).as_str());
        out.append(" categorised from 天天記帳, ");
        out.append(text::number(self.internal).as_str());
        out.append(" internal transfers paired, ");
        out.append(text::number(self.in_transit).as_str());
        out.append(" in transit via clearing, ");
        out.append(text::number(self.uncategorised).as_str());
        out.append(" uncategorised\n");
        out
    }

    fn details(&self) -> (r: String)
        ensures
            r@ == details(*self),
    {
        let mut out = count_line(
            self.converted,
            " of the internal transfers are currency conversions",
        );
        out.append(
            count_line(
                self.reversed,
                " bank reversals booked with the debit they undid",
            ).as_str(),
        );
        out.append(
            count_line(
                self.other_accounts,
                " records for accounts with no statement, from 天天記帳",
            ).as_str(),
        );
        out.append(
            count_line(
                self.balance_assertions,
                " balance assertions checking the ledger against 天天記帳",
            ).as_str(),
        );
        out.append(
            count_line(
                self.unmatched_records,
                " 天天記帳 records matched no statement line (far side kept, near side uncategorised)",
            ).as_str(),
        );
        out.append(
            count_line(
                self.carried,
                " records carry a statement account's balance up to its first statement",
            ).as_str(),
        );
        out
    }

    fn notices(&self) -> (r: String)
        ensures
            r@ == notices(*self),
    {
        let mut out = list_line(
            &self.superseded_openings,
            "  openings superseded by a statement: ",
        );
        out.append(list_line(&self.unmapped, "  unmapped names in mapping.toml: ").as_str());
        out.append(
            list_line(
                &self.stale_overrides,
                "  [overrides] ids matching no record, correcting nothing: ",
            ).as_str(),
        );
        out
    }

    /// The report.
    pub fn text(&self) -> (r: String)
        ensures
            r@ == head(*self) + booked(*self) + details(*self) + notices(*self),
    {
        let mut out = self.head();
        out.append(self.booked().as_str());
        out.append(self.details().as_str());
        out.append(self.notices().as_str());
        out
    }
}

} // verus!
