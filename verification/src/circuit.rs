//! A circuit of wires and gates: each sentence gives a wire the value of a
//! gate over wires and numbers, and can be carried out once its inputs have
//! values.

use vstd::prelude::*;
use vstd::string::*;
use crate::pattern::captures;
use crate::pattern::group;
use crate::pattern::group_text;
use crate::pattern::groups_view;
use crate::pattern::regex_captures;
use crate::text::chars_of;
use crate::text::is_space;
use crate::text::parse_error;
use crate::text::parse_unsigned;
use crate::text::same_text;
use crate::text::string_of;
use crate::text::unsigned_decimal;
use crate::text::white_space;
use crate::text::ParseError;

verus! {

/// The words of `s`: its runs of characters that are not white space, none
/// of them empty. `pending` is the word that the text before `s` left open.
pub open spec fn words_after(pending: Seq<char>, s: Seq<char>) -> Seq<Seq<char>>
    decreases s.len(),
{
    if s.len() == 0 {
        if pending.len() > 0 {
            seq![pending]
        } else {
            Seq::empty()
        }
    } else if white_space(s[0]) {
        if pending.len() > 0 {
            seq![pending] + words_after(Seq::empty(), s.skip(1))
        } else {
            words_after(Seq::empty(), s.skip(1))
        }
    } else {
        words_after(pending.push(s[0]), s.skip(1))
    }
}

/// The words of `s`.
pub open spec fn words(s: Seq<char>) -> Seq<Seq<char>> {
    words_after(Seq::empty(), s)
}

/// The texts of a vector of strings.
pub open spec fn word_texts(v: Seq<String>) -> Seq<Seq<char>> {
    v.map_values(|s: String| s@)
}

/// Cuts `s` into its words.
pub fn split_words(s: &str) -> (out: Vec<String>)
    ensures
        word_texts(out@) == words(s@),
{
    let chars = chars_of(s);
    let mut out: Vec<String> = Vec::new();
    let mut pending: Vec<char> = Vec::new();
    let mut i: usize = 0;
    assert(chars@.skip(0) =~= chars@);
    while i < chars.len()
        invariant
            i <= chars.len(),
            words(chars@) == word_texts(out@) + words_after(pending@, chars@.skip(i as int)),
        decreases chars.len() - i,
    {
        let c = chars[i];
        let ghost here = chars@.skip(i as int);
        let ghost open = pending@;
        proof {
            assert(here.skip(1) =~= chars@.skip(i + 1));
        }
        if is_space(c) {
            if pending.len() > 0 {
                let word = string_of(&pending);
                out.push(word);
                pending = Vec::new();
            } else {
                proof {
                    assert(open =~= Seq::<char>::empty());
                }
            }
        } else {
            pending.push(c);
        }
        i += 1;
    }
    if pending.len() > 0 {
        let word = string_of(&pending);
        out.push(word);
    }
    out
}

/// A gate, over the names of wires or numbers written out.
#[derive(Debug, PartialEq, Eq)]
pub enum Operator {
    ASSIGN(String),
    NOT(String),
    AND { x: String, y: String },
    OR { x: String, y: String },
    LSHIFT { x: String, y: String },
    RSHIFT { x: String, y: String },
}

/// A gate as texts.
pub enum Gate {
    Assign(Seq<char>),
    Not(Seq<char>),
    And(Seq<char>, Seq<char>),
    Or(Seq<char>, Seq<char>),
    Lshift(Seq<char>, Seq<char>),
    Rshift(Seq<char>, Seq<char>),
}

/// Which gate the words spell out.
pub open spec fn gate_of_words(w: Seq<Seq<char>>) -> Option<Gate> {
    if w.len() == 1 {
        Some(Gate::Assign(w[0]))
    } else if w.len() == 2 {
        if w[0] == "NOT"@ {
            Some(Gate::Not(w[1]))
        } else {
            None
        }
    } else if w.len() == 3 {
        if w[1] == "AND"@ {
            Some(Gate::And(w[0], w[2]))
        } else if w[1] == "OR"@ {
            Some(Gate::Or(w[0], w[2]))
        } else if w[1] == "LSHIFT"@ {
            Some(Gate::Lshift(w[0], w[2]))
        } else if w[1] == "RSHIFT"@ {
            Some(Gate::Rshift(w[0], w[2]))
        } else {
            None
        }
    } else {
        None
    }
}

/// The values of the wires that have one.
pub type Wires = Map<Seq<char>, u16>;

/// The value of an operand: that of the wire of that name where it has one,
/// else the number that the operand writes where it is a `u16`.
pub open spec fn operand_value(wires: Wires, operand: Seq<char>) -> Option<u16> {
    if wires.dom().contains(operand) {
        Some(wires[operand])
    } else {
        match unsigned_decimal(operand) {
            Some(v) => if v <= u16::MAX {
                Some(v as u16)
            } else {
                None
            },
            None => None,
        }
    }
}

/// The value of a gate, where its operands have values; a shift by 16 places
/// or more has none.
pub open spec fn gate_value(wires: Wires, gate: Gate) -> Option<u16> {
    match gate {
        Gate::Assign(x) => operand_value(wires, x),
        Gate::Not(x) => match operand_value(wires, x) {
            Some(v) => Some(!v),
            None => None,
        },
        Gate::And(x, y) => match (operand_value(wires, x), operand_value(wires, y)) {
            (Some(a), Some(b)) => Some(a & b),
            _ => None,
        },
        Gate::Or(x, y) => match (operand_value(wires, x), operand_value(wires, y)) {
            (Some(a), Some(b)) => Some(a | b),
            _ => None,
        },
        Gate::Lshift(x, y) => match (operand_value(wires, x), operand_value(wires, y)) {
            (Some(a), Some(b)) => if b < 16 {
                Some(a << b)
            } else {
                None
            },
            _ => None,
        },
        Gate::Rshift(x, y) => match (operand_value(wires, x), operand_value(wires, y)) {
            (Some(a), Some(b)) => if b < 16 {
                Some(a >> b)
            } else {
                None
            },
            _ => None,
        },
    }
}

/// The wires once `name` has been given `v`: a wire that has a value keeps it.
pub open spec fn wired(wires: Wires, name: Seq<char>, v: u16) -> Wires {
    if wires.dom().contains(name) {
        wires
    } else {
        wires.insert(name, v)
    }
}

impl Operator {
    /// This gate as texts.
    pub open spec fn view(&self) -> Gate {
        match self {
            Operator::ASSIGN(x) => Gate::Assign(x@),
            Operator::NOT(x) => Gate::Not(x@),
            Operator::AND { x, y } => Gate::And(x@, y@),
            Operator::OR { x, y } => Gate::Or(x@, y@),
            Operator::LSHIFT { x, y } => Gate::Lshift(x@, y@),
            Operator::RSHIFT { x, y } => Gate::Rshift(x@, y@),
        }
    }

    /// Reads a gate: `x`, `NOT x`, `x AND y`, `x OR y`, `x LSHIFT y` or
    /// `x RSHIFT y`.
    pub fn from_str(s: &str) -> (r: Result<Operator, ParseError>)
        ensures
            match gate_of_words(words(s@)) {
                Some(g) => r matches Ok(op) && op@ == g,
                None => r matches Err(e) && e.message@ == "can't parse operator form sentence: \""@
                    + s@ + "\""@,
            },
    {
        let mut splited = split_words(s);
        let found = if splited.len() == 1 {
            let x = splited.pop().unwrap();
            Some(Operator::ASSIGN(x))
        } else if splited.len() == 2 {
            let x = splited.pop().unwrap();
            if same_text(splited[0].as_str(), "NOT") {
                Some(Operator::NOT(x))
            } else {
                None
            }
        } else if splited.len() == 3 {
            let y = splited.pop().unwrap();
            let op = splited.pop().unwrap();
            let x = splited.pop().unwrap();
            if same_text(op.as_str(), "AND") {
                Some(Operator::AND { x, y })
            } else if same_text(op.as_str(), "OR") {
                Some(Operator::OR { x, y })
            } else if same_text(op.as_str(), "LSHIFT") {
                Some(Operator::LSHIFT { x, y })
            } else if same_text(op.as_str(), "RSHIFT") {
                Some(Operator::RSHIFT { x, y })
            } else {
                None
            }
        } else {
            None
        };
        match found {
            Some(op) => Ok(op),
            None => Err(parse_error("can't parse operator form sentence: \"", s, "\"")),
        }
    }

    /// The value of this gate on the circuit, where its operands have values.
    pub fn execute(&self, circuit: &Circuit) -> (r: Option<u16>)
        requires
            circuit.wf(),
        ensures
            r == gate_value(circuit.wires(), self@),
    {
        match self {
            Operator::ASSIGN(x) => self.get_or_parse_operand(circuit, x),
            Operator::NOT(x) => match self.get_or_parse_operand(circuit, x) {
                Some(v) => Some(!v),
                None => None,
            },
            Operator::AND { x, y } => match (
                self.get_or_parse_operand(circuit, x),
                self.get_or_parse_operand(circuit, y),
            ) {
                (Some(a), Some(b)) => Some(a & b),
                _ => None,
            },
            Operator::OR { x, y } => match (
                self.get_or_parse_operand(circuit, x),
                self.get_or_parse_operand(circuit, y),
            ) {
                (Some(a), Some(b)) => Some(a | b),
                _ => None,
            },
            Operator::LSHIFT { x, y } => match (
                self.get_or_parse_operand(circuit, x),
                self.get_or_parse_operand(circuit, y),
            ) {
                (Some(a), Some(b)) => if b < 16 {
                    Some(a << b)
                } else {
                    None
                },
                _ => None,
            },
            Operator::RSHIFT { x, y } => match (
                self.get_or_parse_operand(circuit, x),
                self.get_or_parse_operand(circuit, y),
            ) {
                (Some(a), Some(b)) => if b < 16 {
                    Some(a >> b)
                } else {
                    None
                },
                _ => None,
            },
        }
    }

    /// The value of an operand on the circuit.
    pub fn get_or_parse_operand(&self, circuit: &Circuit, operand: &String) -> (r: Option<u16>)
        requires
            circuit.wf(),
        ensures
            r == operand_value(circuit.wires(), operand@),
    {
        match circuit.get_value(operand) {
            Some(v) => Some(v),
            None => match parse_unsigned(operand.as_str(), 0xffff) {
                Some(v) => Some(v as u16),
                None => None,
            },
        }
    }
}

/// A gate and the wire that takes its value.
#[derive(Debug, PartialEq, Eq)]
pub struct Sentence {
    pub operator: Operator,
    pub assign_to: String,
}

/// The sentence that the groups of a matched line spell out, as a gate and
/// the name of a wire.
pub open spec fn sentence_of_groups(groups: Seq<Option<Seq<char>>>) -> Option<(Gate, Seq<char>)> {
    if groups.len() < 3 {
        None
    } else {
        match (group_text(groups, 1), group_text(groups, 2)) {
            (Some(gate), Some(wire)) => match gate_of_words(words(gate)) {
                Some(g) => Some((g, wire)),
                None => None,
            },
            _ => None,
        }
    }
}

/// The sentence that a line spells out, going by what the pattern finds in
/// it.
pub open spec fn sentence_of_line(line: Seq<char>) -> Option<(Gate, Seq<char>)> {
    match regex_captures(r"(.*) -> ([a-z]+)$"@, line) {
        Some(groups) => sentence_of_groups(groups),
        None => None,
    }
}

impl Sentence {
    /// Its gate and the name of its wire.
    pub open spec fn view(&self) -> (Gate, Seq<char>) {
        (self.operator@, self.assign_to@)
    }

    /// Reads a sentence from the groups of a matched line.
    pub fn from_captures(groups: &Vec<Option<String>>) -> (r: Option<Sentence>)
        ensures
            match sentence_of_groups(groups_view(Some(*groups))->0) {
                Some(v) => r matches Some(s) && s@ == v,
                None => r is None,
            },
    {
        if groups.len() < 3 {
            return None;
        }
        match (group(groups, 1), group(groups, 2)) {
            (Some(gate), Some(wire)) => match Operator::from_str(gate) {
                Ok(operator) => Some(Sentence { operator, assign_to: String::from_str(wire) }),
                Err(_) => None,
            },
            _ => None,
        }
    }

    /// Reads a line of the form `x AND y -> z`.
    pub fn from_str(s: &str) -> (r: Result<Sentence, ParseError>)
        ensures
            match sentence_of_line(s@) {
                Some(v) => r matches Ok(sentence) && sentence@ == v,
                None => r matches Err(e) && e.message@ == "sentence: \""@ + s@
                    + "\" is not in valid format"@,
            },
    {
        let found = match captures(r"(.*) -> ([a-z]+)$", s) {
            Some(groups) => Sentence::from_captures(&groups),
            None => None,
        };
        match found {
            Some(sentence) => Ok(sentence),
            None => Err(parse_error("sentence: \"", s, "\" is not in valid format")),
        }
    }

    /// Carries the sentence out on the circuit, where its gate has a value.
    pub fn execute(&self, circuit: &mut Circuit) -> (r: Option<()>)
        requires
            old(circuit).wf(),
        ensures
            final(circuit).wf(),
            final(circuit).carried() == old(circuit).carried(),
            match gate_value(old(circuit).wires(), self.operator@) {
                Some(v) => r is Some && final(circuit).wires() == wired(
                    old(circuit).wires(),
                    self.assign_to@,
                    v,
                ),
                None => r is None && final(circuit).wires() == old(circuit).wires(),
            },
    {
        match self.operator.execute(circuit) {
            Some(v) => {
                circuit.put_value(&self.assign_to, v);
                Some(())
            },
            None => None,
        }
    }
}

/// What has come of carrying sentences out: the values of the wires, the
/// sentences carried out in that order, and those that could not be yet.
pub struct Progress {
    pub wires: Wires,
    pub done: Seq<Sentence>,
    pub rest: Seq<Sentence>,
}

/// One pass over the first `n` of `sentences`, in order: a sentence whose
/// gate has a value is carried out at once, so that later ones see it; the
/// others are kept.
pub open spec fn pass(wires: Wires, done: Seq<Sentence>, sentences: Seq<Sentence>, n: nat) -> Progress
    decreases n,
{
    if n == 0 {
        Progress { wires, done, rest: Seq::empty() }
    } else {
        let before = pass(wires, done, sentences, (n - 1) as nat);
        let s = sentences[n - 1];
        match gate_value(before.wires, s.operator@) {
            Some(v) => Progress {
                wires: wired(before.wires, s.assign_to@, v),
                done: before.done.push(s),
                rest: before.rest,
            },
            None => Progress { rest: before.rest.push(s), ..before },
        }
    }
}

/// Pass after pass over what is left, until nothing is left or a pass carries
/// nothing out.
pub open spec fn settle(wires: Wires, done: Seq<Sentence>, sentences: Seq<Sentence>) -> Progress
    decreases sentences.len(),
{
    let after = pass(wires, done, sentences, sentences.len());
    if sentences.len() == 0 || after.rest.len() >= sentences.len() {
        after
    } else {
        settle(after.wires, after.done, after.rest)
    }
}

/// The wires with their values, and the sentences carried out so far.
pub struct Circuit {
    values: Vec<(String, u16)>,
    sorted: Vec<Sentence>,
}

/// The place of the entry for the wire `name`, where there is one.
pub open spec fn entry_of(values: Seq<(String, u16)>, name: Seq<char>) -> Option<int> {
    if exists|i: int| 0 <= i < values.len() && (#[trigger] values[i]).0@ == name {
        Some(choose|i: int| 0 <= i < values.len() && (#[trigger] values[i]).0@ == name)
    } else {
        None
    }
}

impl Circuit {
    /// No wire is listed twice.
    pub closed spec fn wf(&self) -> bool {
        forall|i: int, j: int|
            0 <= i < j < self.values.len() ==> (#[trigger] self.values[i]).0@ != (
            #[trigger] self.values[j]).0@
    }

    /// The values of the wires that have one.
    pub closed spec fn wires(&self) -> Wires {
        Map::new(
            |name: Seq<char>| entry_of(self.values@, name) is Some,
            |name: Seq<char>| self.values[entry_of(self.values@, name)->0].1,
        )
    }

    /// The sentences carried out so far, in that order.
    pub closed spec fn carried(&self) -> Seq<Sentence> {
        self.sorted@
    }

    /// Hands out the sentences carried out, in that order.
    pub fn into_sorted(self) -> (sorted: Vec<Sentence>)
        ensures
            sorted@ == self.carried(),
    {
        self.sorted
    }

    /// A circuit with no wire set and no sentence carried out.
    pub fn new() -> (c: Circuit)
        ensures
            c.wf(),
            c.wires() == Map::<Seq<char>, u16>::empty(),
            c.carried().len() == 0,
    {
        let c = Circuit { sorted: Vec::new(), values: Vec::new() };
        c
    }

    /// The value of a wire, where it has one.
    pub fn get_value(&self, identifier: &String) -> (r: Option<u16>)
        requires
            self.wf(),
        ensures
            r == if self.wires().dom().contains(identifier@) {
                Some(self.wires()[identifier@])
            } else {
                None
            },
    {
        let mut i: usize = 0;
        while i < self.values.len()
            invariant
                self.wf(),
                i <= self.values.len(),
                forall|j: int| 0 <= j < i ==> (#[trigger] self.values[j]).0@ != identifier@,
            decreases self.values.len() - i,
        {
            if same_text(self.values[i].0.as_str(), identifier.as_str()) {
                return Some(self.values[i].1);
            }
            i += 1;
        }
        None
    }

    /// Gives a wire a value, unless it has one.
    pub fn put_value(&mut self, identifier: &String, v: u16)
        requires
            old(self).wf(),
        ensures
            final(self).wf(),
            final(self).carried() == old(self).carried(),
            final(self).wires() == wired(old(self).wires(), identifier@, v),
    {
        if self.get_value(identifier).is_none() {
            let ghost before = self.values@;
            self.values.push((identifier.clone(), v));
            proof {
                let after = self.values@;
                assert(after[before.len() as int].0@ == identifier@);
                assert forall|i: int| 0 <= i < before.len() implies after[i] == before[i] by {}
                assert forall|name: Seq<char>| entry_of(after, name) is Some <==> (entry_of(
                    before,
                    name,
                ) is Some || name == identifier@) by {
                    if entry_of(before, name) is Some {
                        let k = entry_of(before, name)->0;
                    }
                    if entry_of(after, name) is Some {
                        let k = entry_of(after, name)->0;
                    }
                }
                assert(self.wires() =~= wired(old(self).wires(), identifier@, v)) by {
                    assert forall|name: Seq<char>| entry_of(after, name) is Some implies self.values[entry_of(
                        after,
                        name,
                    )->0].1 == (if name == identifier@ {
                        v
                    } else {
                        before[entry_of(before, name)->0].1
                    }) by {}
                }
            }
        }
    }

    /// Carries the sentences out, pass after pass, and returns those that
    /// never could be.
    pub fn execute(&mut self, sentences: Vec<Sentence>) -> (left: Vec<Sentence>)
        requires
            old(self).wf(),
        ensures
            final(self).wf(),
            (Progress { wires: final(self).wires(), done: final(self).carried(), rest: left@ })
                == settle(old(self).wires(), old(self).carried(), sentences@),
    {
        let mut sentences = sentences;
        let ghost goal = settle(self.wires(), self.sorted@, sentences@);
        loop
            invariant_except_break
                goal == settle(self.wires(), self.sorted@, sentences@),
            invariant
                self.wf(),
            ensures
                self.wf(),
                (Progress { wires: self.wires(), done: self.sorted@, rest: sentences@ }) == goal,
            decreases sentences.len(),
        {
            let ghost wires0 = self.wires();
            let ghost done0 = self.sorted@;
            let ghost all = sentences@;
            let before = sentences.len();
            let mut queue = reversed(sentences);
            let mut rest: Vec<Sentence> = Vec::new();
            let mut n: usize = 0;
            while queue.len() > 0
                invariant
                    self.wf(),
                    n + queue.len() == all.len(),
                    before == all.len(),
                    forall|i: int| 0 <= i < queue.len() ==> queue[i] == all[all.len() - 1 - i],
                    (Progress { wires: self.wires(), done: self.sorted@, rest: rest@ }) == pass(
                        wires0,
                        done0,
                        all,
                        n as nat,
                    ),
                decreases queue.len(),
            {
                let s = queue.pop().unwrap();
                match s.execute(self) {
                    Some(_) => {
                        self.sorted.push(s);
                    },
                    None => {
                        rest.push(s);
                    },
                }
                n += 1;
            }
            sentences = rest;
            if before == 0 || sentences.len() >= before {
                break ;
            }
        }
        sentences
    }
}

/// The sentences in the opposite order.
fn reversed(v: Vec<Sentence>) -> (r: Vec<Sentence>)
    ensures
        r.len() == v.len(),
        forall|i: int| 0 <= i < r.len() ==> r[i] == v[v.len() - 1 - i],
{
    let mut v = v;
    let ghost all = v@;
    let mut r: Vec<Sentence> = Vec::new();
    while v.len() > 0
        invariant
            r.len() + v.len() == all.len(),
            forall|i: int| 0 <= i < v.len() ==> v[i] == all[i],
            forall|i: int| 0 <= i < r.len() ==> r[i] == all[all.len() - 1 - i],
        decreases v.len(),
    {
        let s = v.pop().unwrap();
        r.push(s);
    }
    r
}

} // verus!
