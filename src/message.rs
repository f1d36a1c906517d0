//! The notification sent to each giver: who they give to, and whom they gave
//! to and received from in past years.
use vstd::prelude::*;
use vstd::string::StringExecFns;
use crate::pair::Pair;
use crate::roster::{Input, Solution, known, resolves, position_of};

verus! {

/// One notification: subject line, text, and `Name <address>` of the giver.
#[derive(Debug, Clone)]
pub struct Message {
    pub subject: String,
    pub body: String,
    pub email: String,
}

/// The decimal digit `d`.
pub open spec fn digit_char(d: nat) -> char {
    seq!['0', '1', '2', '3', '4', '5', '6', '7', '8', '9'][d as int]
}

/// `n` written in decimal, without leading zeros.
pub open spec fn decimal(n: nat) -> Seq<char>
    decreases n,
{
    if n < 10 {
        seq![digit_char(n)]
    } else {
        decimal(n / 10).push(digit_char(n % 10))
    }
}

/// `name (year)`.
pub open spec fn entry_text(name: Seq<char>, year: u16) -> Seq<char> {
    name + " ("@ + decimal(year as nat) + ")"@
}

/// The views of a list of strings.
pub open spec fn views(v: Seq<String>) -> Seq<Seq<char>> {
    v.map_values(|s: String| s@)
}

/// The other side of each pair of one year in which `name` stands on the
/// given side (`giving`: as giver), with the year.
pub open spec fn partners_in(name: Seq<char>, pairs: Seq<Pair<String>>, year: u16, giving: bool) -> Seq<
    Seq<char>,
>
    decreases pairs.len(),
{
    if pairs.len() == 0 {
        seq![]
    } else {
        let rest = partners_in(name, pairs.drop_last(), year, giving);
        let p = pairs.last();
        if giving && p.giver@ == name {
            rest.push(entry_text(p.receiver@, year))
        } else if !giving && p.receiver@ == name {
            rest.push(entry_text(p.giver@, year))
        } else {
            rest
        }
    }
}

/// [`partners_in`] over every past year, in order.
pub open spec fn past_partners(name: Seq<char>, history: Seq<Solution>, giving: bool) -> Seq<
    Seq<char>,
>
    decreases history.len(),
{
    if history.len() == 0 {
        seq![]
    } else {
        past_partners(name, history.drop_last(), giving) + partners_in(
            name,
            history.last().pairs@,
            history.last().year,
            giving,
        )
    }
}

/// The first `k` items, separated by `, ` and, before the last item of the
/// whole list, by `, and `.
pub open spec fn listing_upto(items: Seq<Seq<char>>, k: nat) -> Seq<char>
    decreases k,
{
    if k <= 1 {
        if items.len() == 0 {
            seq![]
        } else {
            items[0]
        }
    } else {
        let sep = if k == items.len() {
            ", and "@
        } else {
            ", "@
        };
        listing_upto(items, (k - 1) as nat) + sep + items[k - 1]
    }
}

/// The whole list, as [`listing_upto`] writes it.
pub open spec fn listing(items: Seq<Seq<char>>) -> Seq<char> {
    listing_upto(items, items.len())
}

/// A paragraph that lists `items` after `lead`, or nothing when there are
/// none.
pub open spec fn section(lead: Seq<char>, items: Seq<Seq<char>>) -> Seq<char> {
    if items.len() == 0 {
        seq![]
    } else {
        "\n"@ + lead + listing(items) + ".\n"@
    }
}

/// The subject line for `giver`.
pub open spec fn subject_text(giver: Seq<char>) -> Seq<char> {
    "Secret Santa "@ + giver + ": Keep it secret! Keep it safe!"@
}

/// The closing lines of every message.
pub open spec fn footer_text() -> Seq<char> {
    "\n* * *\nBrought to you by secret-santa[1].\n\n[1]: https://github.com/shanecelis/secret-santa\n\n"@
}

/// The text for `giver`, who gives to `receiver`, with what they gave and
/// received in past years.
pub open spec fn body_text(
    giver: Seq<char>,
    receiver: Seq<char>,
    gave: Seq<Seq<char>>,
    got: Seq<Seq<char>>,
) -> Seq<char> {
    giver + ", you are the Secret Santa for "@ + receiver + ".\n"@ + section(
        "You were Secret Santa for "@,
        gave,
    ) + section("You had these Secret Santas in Christmases past: "@, got) + footer_text()
}

/// The decimal digit `d` as a string.
fn digit_str(d: u16) -> (r: &'static str)
    requires
        d < 10,
    ensures
        r@ == seq![digit_char(d as nat)],
{
    proof {
        reveal_strlit("0");
        reveal_strlit("1");
        reveal_strlit("2");
        reveal_strlit("3");
        reveal_strlit("4");
        reveal_strlit("5");
        reveal_strlit("6");
        reveal_strlit("7");
        reveal_strlit("8");
        reveal_strlit("9");
    }
    match d {
        0 => "0",
        1 => "1",
        2 => "2",
        3 => "3",
        4 => "4",
        5 => "5",
        6 => "6",
        7 => "7",
        8 => "8",
        _ => "9",
    }
}

/// Appends `n` in decimal.
fn append_decimal(s: &mut String, n: u16)
    ensures
        final(s)@ == old(s)@ + decimal(n as nat),
    decreases n,
{
    if n >= 10 {
        append_decimal(s, n / 10);
    }
    s.append(digit_str(n % 10));
    assert(old(s)@ + decimal(n as nat) =~= if n >= 10 {
        old(s)@ + decimal((n / 10) as nat) + seq![digit_char((n % 10) as nat)]
    } else {
        old(s)@ + seq![digit_char((n % 10) as nat)]
    });
}

/// `name (year)`.
fn entry(name: &String, year: u16) -> (r: String)
    ensures
        r@ == entry_text(name@, year),
{
    let mut r = String::new();
    r.append(name.as_str());
    r.append(" (");
    append_decimal(&mut r, year);
    r.append(")");
    assert(r@ =~= entry_text(name@, year));
    r
}

/// The other side of each past pair in which `name` stands on the given
/// side, `name (year)`, in the order of the history.
fn past_partners_of(name: &String, input: &Input, giving: bool) -> (r: Vec<String>)
    ensures
        views(r@) == past_partners(name@, input.history@, giving),
{
    let mut r: Vec<String> = Vec::new();
    let mut h: usize = 0;
    while h < input.history.len()
        invariant
            h <= input.history@.len(),
            views(r@) == past_partners(name@, input.history@.subrange(0, h as int), giving),
        decreases input.history.len() - h,
    {
        let sol = &input.history[h];
        let ghost before = views(r@);
        let mut j: usize = 0;
        while j < sol.pairs.len()
            invariant
                j <= sol.pairs@.len(),
                views(r@) == before + partners_in(
                    name@,
                    sol.pairs@.subrange(0, j as int),
                    sol.year,
                    giving,
                ),
            decreases sol.pairs.len() - j,
        {
            let p = &sol.pairs[j];
            let ghost pre = views(r@);
            assert(sol.pairs@.subrange(0, j + 1).drop_last() =~= sol.pairs@.subrange(0, j as int));
            if giving && p.giver == *name {
                r.push(entry(&p.receiver, sol.year));
                assert(views(r@) =~= pre.push(entry_text(p.receiver@, sol.year)));
            } else if !giving && p.receiver == *name {
                r.push(entry(&p.giver, sol.year));
                assert(views(r@) =~= pre.push(entry_text(p.giver@, sol.year)));
            }
            j = j + 1;
        }
        assert(sol.pairs@.subrange(0, sol.pairs@.len() as int) =~= sol.pairs@);
        assert(input.history@.subrange(0, h + 1).drop_last() =~= input.history@.subrange(
            0,
            h as int,
        ));
        h = h + 1;
    }
    assert(input.history@.subrange(0, input.history@.len() as int) =~= input.history@);
    r
}

/// Those who gave to `receiver` in past years, `name (year)`, in the order of
/// the history.
pub fn givers_for(receiver: &String, input: &Input) -> (r: Vec<String>)
    ensures
        views(r@) == past_partners(receiver@, input.history@, false),
{
    past_partners_of(receiver, input, false)
}

/// Those whom `giver` gave to in past years, `name (year)`, in the order of
/// the history.
pub fn receivers_for(giver: &String, input: &Input) -> (r: Vec<String>)
    ensures
        views(r@) == past_partners(giver@, input.history@, true),
{
    past_partners_of(giver, input, true)
}

/// Appends the items, separated by `, ` and, before the last one, `, and `.
fn append_listing(s: &mut String, items: &Vec<String>)
    ensures
        final(s)@ == old(s)@ + listing(views(items@)),
{
    let ghost v = views(items@);
    if items.len() == 0 {
        assert(listing(v) =~= seq![]);
        return;
    }
    s.append(items[0].as_str());
    let mut k: usize = 1;
    while k < items.len()
        invariant
            1 <= k <= items@.len(),
            v == views(items@),
            s@ == old(s)@ + listing_upto(v, k as nat),
        decreases items.len() - k,
    {
        if k + 1 == items.len() {
            s.append(", and ");
        } else {
            s.append(", ");
        }
        s.append(items[k].as_str());
        k = k + 1;
        assert(s@ =~= old(s)@ + listing_upto(v, k as nat));
    }
}

/// Appends the paragraph of [`section`].
fn append_section(s: &mut String, lead: &str, items: &Vec<String>)
    ensures
        final(s)@ == old(s)@ + section(lead@, views(items@)),
{
    if items.len() > 0 {
        s.append("\n");
        s.append(lead);
        append_listing(s, items);
        s.append(".\n");
        assert(s@ =~= old(s)@ + section(lead@, views(items@)));
    } else {
        assert(s@ =~= old(s)@ + section(lead@, views(items@)));
    }
}

/// The message for the giver of `pair`, who must be on the roster. The
/// address is the giver's name and the email of the first person on the
/// roster with that name.
pub fn compose_message(pair: &Pair<String>, input: &Input) -> (msg: Message)
    requires
        known(input.people@, pair.giver@),
    ensures
        msg.subject@ == subject_text(pair.giver@),
        msg.body@ == body_text(
            pair.giver@,
            pair.receiver@,
            past_partners(pair.giver@, input.history@, true),
            past_partners(pair.giver@, input.history@, false),
        ),
        exists|i: int|
            resolves(input.people@, pair.giver@, i) && msg.email@ == pair.giver@ + " <"@
                + input.people@[i].email@ + ">"@,
{
    let giver = &pair.giver;
    let receiver = &pair.receiver;
    let position = position_of(&input.people, giver);
    let address = &input.people[position].email;
    let mut subject = String::new();
    subject.append("Secret Santa ");
    subject.append(giver.as_str());
    subject.append(": Keep it secret! Keep it safe!");

    let mut body = String::new();
    body.append(giver.as_str());
    body.append(", you are the Secret Santa for ");
    body.append(receiver.as_str());
    body.append(".\n");
    let receivers = receivers_for(giver, input);
    append_section(&mut body, "You were Secret Santa for ", &receivers);
    let givers = givers_for(giver, input);
    append_section(&mut body, "You had these Secret Santas in Christmases past: ", &givers);
    body.append(
        "\n* * *\nBrought to you by secret-santa[1].\n\n[1]: https://github.com/shanecelis/secret-santa\n\n",
    );

    let mut email = String::new();
    email.append(giver.as_str());
    email.append(" <");
    email.append(address.as_str());
    email.append(">");
    assert(subject@ =~= subject_text(giver@));
    assert(body@ =~= body_text(
        giver@,
        receiver@,
        past_partners(giver@, input.history@, true),
        past_partners(giver@, input.history@, false),
    ));
    assert(email@ =~= giver@ + " <"@ + address@ + ">"@);
    Message { subject, body, email }
}

} // verus!
