//! The messages shown to the player, and how each one is worded.
use vstd::prelude::*;
use vstd::string::*;

verus! {

/// The messages of the game so far, oldest first.
pub struct Gamelog {
    pub entries: Vec<String>,
}

impl View for Gamelog {
    type V = Seq<Seq<char>>;

    open spec fn view(&self) -> Seq<Seq<char>> {
        self.entries@.map_values(|line: String| line@)
    }
}

impl Gamelog {
    /// A log without messages.
    pub fn new() -> (log: Gamelog)
        ensures
            log@ == Seq::<Seq<char>>::empty(),
    {
        let log = Gamelog { entries: Vec::new() };
        assert(log@ =~= Seq::<Seq<char>>::empty());
        log
    }

    /// Appends one message.
    pub fn push(&mut self, line: String)
        ensures
            final(self)@ == old(self)@.push(line@),
    {
        self.entries.push(line);
        assert(self@ =~= old(self)@.push(line@));
    }
}

/// The character that writes the digit `d`.
pub open spec fn digit(d: int) -> char {
    if d == 0 {
        '0'
    } else if d == 1 {
        '1'
    } else if d == 2 {
        '2'
    } else if d == 3 {
        '3'
    } else if d == 4 {
        '4'
    } else if d == 5 {
        '5'
    } else if d == 6 {
        '6'
    } else if d == 7 {
        '7'
    } else if d == 8 {
        '8'
    } else {
        '9'
    }
}

/// A natural number in decimal, without leading zeros.
pub open spec fn decimal_nat(n: nat) -> Seq<char>
    decreases n,
{
    if n < 10 {
        seq![digit(n as int)]
    } else {
        decimal_nat(n / 10).push(digit((n % 10) as int))
    }
}

/// An integer in decimal, with a minus sign in front of a negative one.
pub open spec fn decimal(n: int) -> Seq<char> {
    if n < 0 {
        seq!['-'] + decimal_nat((-n) as nat)
    } else {
        decimal_nat(n as nat)
    }
}

fn digit_text(d: u64) -> (s: &'static str)
    requires
        d < 10,
    ensures
        s@ == seq![digit(d as int)],
{
    proof {
        reveal_strlit("0");
        reveal_strlit("1");
        reveal_strlit("2");
        reveal_strlit("3");
        reveal_strlit("4");
        reveal_strlit("5");
        reveal_strlit("6");
        reveal_strlit("7");
        reveal_strlit("8");
        reveal_strlit("9");
    }
    let s = if d == 0 {
        "0"
    } else if d == 1 {
        "1"
    } else if d == 2 {
        "2"
    } else if d == 3 {
        "3"
    } else if d == 4 {
        "4"
    } else if d == 5 {
        "5"
    } else if d == 6 {
        "6"
    } else if d == 7 {
        "7"
    } else if d == 8 {
        "8"
    } else {
        "9"
    };
    assert(s@ =~= seq![digit(d as int)]);
    s
}

fn write_nat(n: u64) -> (s: String)
    ensures
        s@ == decimal_nat(n as nat),
    decreases n,
{
    if n < 10 {
        String::from_str(digit_text(n))
    } else {
        let mut s = write_nat(n / 10);
        s.append(digit_text(n % 10));
        assert(s@ =~= decimal_nat(n as nat));
        s
    }
}

/// Writes a number the way the log shows it.
pub fn write_number(n: i32) -> (s: String)
    ensures
        s@ == decimal(n as int),
{
    if n < 0 {
        proof {
            reveal_strlit("-");
        }
        let magnitude: u64 = (-(n as i64)) as u64;
        let digits = write_nat(magnitude);
        let mut s = String::from_str("-");
        s.append(digits.as_str());
        assert(s@ =~= decimal(n as int));
        s
    } else {
        write_nat(n as u64)
    }
}

/// What the log says when the player picks something up.
pub open spec fn pickup_line(item: Seq<char>) -> Seq<char> {
    "You pick up the "@ + item + "."@
}

/// What the log says when the player drops something.
pub open spec fn drop_line(item: Seq<char>) -> Seq<char> {
    "You drop the "@ + item + "."@
}

/// What the log says when the player takes something off.
pub open spec fn unequip_line(item: Seq<char>) -> Seq<char> {
    "You unequip "@ + item + "."@
}

/// What the log says when the player puts something on.
pub open spec fn equip_line(item: Seq<char>) -> Seq<char> {
    "You equip "@ + item + "."@
}

/// What the log says when the player's item damages a target.
pub open spec fn damage_line(item: Seq<char>, target: Seq<char>, amount: int) -> Seq<char> {
    "You use "@ + item + " on "@ + target + ", inflicting "@ + decimal(amount) + " hp."@
}

/// What the log says when the player's item heals somebody by an amount.
pub open spec fn heal_line(item: Seq<char>, amount: int) -> Seq<char> {
    "You drink the "@ + item + ", healing "@ + decimal(amount) + " hp."@
}

/// What the log says when the player's item confuses a target.
pub open spec fn confuse_line(item: Seq<char>, target: Seq<char>) -> Seq<char> {
    "You use "@ + item + " on "@ + target + ", confusing them."@
}

/// What the log says of a blow that hurts.
pub open spec fn melee_line(attacker: Seq<char>, target: Seq<char>, amount: int) -> Seq<char> {
    attacker + " hits "@ + target + ", for "@ + decimal(amount) + " hp."@
}

/// Writes the message of a pickup.
pub fn write_pickup(item: &str) -> (s: String)
    ensures
        s@ == pickup_line(item@),
{
    let mut s = String::from_str("You pick up the ");
    s.append(item);
    s.append(".");
    s
}

/// Writes the message of a drop.
pub fn write_drop(item: &str) -> (s: String)
    ensures
        s@ == drop_line(item@),
{
    let mut s = String::from_str("You drop the ");
    s.append(item);
    s.append(".");
    s
}

/// Writes the message of an item taken off.
pub fn write_unequip(item: &str) -> (s: String)
    ensures
        s@ == unequip_line(item@),
{
    let mut s = String::from_str("You unequip ");
    s.append(item);
    s.append(".");
    s
}

/// Writes the message of an item put on.
pub fn write_equip(item: &str) -> (s: String)
    ensures
        s@ == equip_line(item@),
{
    let mut s = String::from_str("You equip ");
    s.append(item);
    s.append(".");
    s
}

/// Writes the message of an item that damages.
pub fn write_damage(item: &str, target: &str, amount: i32) -> (s: String)
    ensures
        s@ == damage_line(item@, target@, amount as int),
{
    let number = write_number(amount);
    let mut s = String::from_str("You use ");
    s.append(item);
    s.append(" on ");
    s.append(target);
    s.append(", inflicting ");
    s.append(number.as_str());
    s.append(" hp.");
    s
}

/// Writes the message of an item that heals.
pub fn write_heal(item: &str, amount: i32) -> (s: String)
    ensures
        s@ == heal_line(item@, amount as int),
{
    let number = write_number(amount);
    let mut s = String::from_str("You drink the ");
    s.append(item);
    s.append(", healing ");
    s.append(number.as_str());
    s.append(" hp.");
    s
}

/// Writes the message of an item that confuses.
pub fn write_confuse(item: &str, target: &str) -> (s: String)
    ensures
        s@ == confuse_line(item@, target@),
{
    let mut s = String::from_str("You use ");
    s.append(item);
    s.append(" on ");
    s.append(target);
    s.append(", confusing them.");
    s
}

/// Writes the message of a blow.
pub fn write_melee(attacker: &str, target: &str, amount: i32) -> (s: String)
    ensures
        s@ == melee_line(attacker@, target@, amount as int),
{
    let number = write_number(amount);
    let mut s = String::from_str(attacker);
    s.append(" hits ");
    s.append(target);
    s.append(", for ");
    s.append(number.as_str());
    s.append(" hp.");
    s
}

} // verus!
