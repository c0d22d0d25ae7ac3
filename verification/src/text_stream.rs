use vstd::prelude::*;

verus! {

/// Gives every name of a ballot written as text the ID that stands for it
/// in a stream of votes. A name of the table of names has its place there
/// as ID; any other name gets the next of the IDs from 255 down, and keeps
/// it.
pub struct Numbering {
    names: Vec<String>,
    assigned: Vec<(String, u8)>,
    next_num: u8,
}

/// The ID that the table of names gives to `name`: the last place where
/// the name stands, cut to a byte.
pub open spec fn table_number(names: Seq<String>, name: Seq<char>, upto: int) -> Option<u8>
    decreases upto,
{
    if upto <= 0 {
        None
    } else if names[upto - 1]@ == name {
        Some(((upto - 1) % 256) as u8)
    } else {
        table_number(names, name, upto - 1)
    }
}

/// The ID that was given to `name` before, if one was: the first entry
/// for the name among the first `upto`.
pub open spec fn given_number(assigned: Seq<(String, u8)>, name: Seq<char>, from: int) -> Option<u8>
    decreases assigned.len() - from,
{
    if from < 0 || from >= assigned.len() {
        None
    } else if assigned[from].0@ == name {
        Some(assigned[from].1)
    } else {
        given_number(assigned, name, from + 1)
    }
}

/// No ID is left for a name that is not in the table.
#[derive(Debug)]
pub struct OutOfNumbers {}

impl Numbering {
    /// The table of names.
    pub closed spec fn table(&self) -> Seq<String> {
        self.names@
    }

    /// The names that were asked for, each with the ID that it was given.
    pub closed spec fn given(&self) -> Seq<(String, u8)> {
        self.assigned@
    }

    /// The ID that the next name outside the table gets.
    pub closed spec fn next(&self) -> u8 {
        self.next_num
    }

    /// A numbering in which no name was asked for yet.
    pub fn new(names: Vec<String>) -> (numbering: Self)
        ensures
            numbering.table() == names@,
            numbering.given() == Seq::<(String, u8)>::empty(),
            numbering.next() == 255,
    {
        Numbering { names, assigned: Vec::new(), next_num: 255 }
    }

    /// The ID that asking for `name` gives: the one it was given before;
    /// else its place in the table of names; else the next free ID; or
    /// none where the last free ID was given away.
    pub open spec fn number_of(&self, name: Seq<char>) -> Option<u8> {
        match given_number(self.given(), name, 0) {
            Some(n) => Some(n),
            None => match table_number(self.table(), name, self.table().len() as int) {
                Some(n) => Some(n),
                None => if self.next() == 0 {
                    None
                } else {
                    Some(self.next())
                },
            },
        }
    }

    /// Asking for `name` takes a free ID: the name is neither among those
    /// asked for before nor in the table, and an ID is left.
    pub open spec fn takes_number(&self, name: Seq<char>) -> bool {
        &&& given_number(self.given(), name, 0) is None
        &&& table_number(self.table(), name, self.table().len() as int) is None
        &&& self.next() != 0
    }

    /// The ID of `name`: the one it was given before; else its place in the
    /// table of names; else the next free ID, which is then taken. A name
    /// that gets an ID for the first time is noted with it. Fails where a
    /// name outside the table asks for an ID and the last one was given
    /// away.
    pub fn get_num(&mut self, name: &String) -> (num: Result<u8, OutOfNumbers>)
        ensures
            final(self).table() == old(self).table(),
            match old(self).number_of(name@) {
                Some(n) => num == Ok::<u8, OutOfNumbers>(n),
                None => num is Err,
            },
            final(self).given() == (if given_number(old(self).given(), name@, 0) is None && num
                is Ok {
                old(self).given().push((*name, num->Ok_0))
            } else {
                old(self).given()
            }),
            final(self).next() == (if old(self).takes_number(name@) {
                (old(self).next() - 1) as u8
            } else {
                old(self).next()
            }),
    {
        let mut k: usize = 0;
        while k < self.assigned.len()
            invariant
                k <= self.assigned@.len(),
                *self == *old(self),
                given_number(self.assigned@, name@, k as int) == given_number(
                    self.assigned@,
                    name@,
                    0,
                ),
            decreases self.assigned@.len() - k,
        {
            if self.assigned[k].0 == *name {
                return Ok(self.assigned[k].1);
            }
            k += 1;
        }
        let mut num: Option<u8> = None;
        let mut i: usize = 0;
        while i < self.names.len()
            invariant
                i <= self.names@.len(),
                *self == *old(self),
                num == table_number(self.names@, name@, i as int),
            decreases self.names@.len() - i,
        {
            if self.names[i] == *name {
                num = Some((i % 256) as u8);
            }
            i += 1;
        }
        let num = match num {
            Some(num) => num,
            None => {
                if self.next_num == 0 {
                    return Err(OutOfNumbers {  });
                }
                self.next_num = self.next_num - 1;
                self.next_num + 1
            },
        };
        self.assigned.push((name.clone(), num));
        Ok(num)
    }
}

/// The record that stands in the stream for a line of the ballot: the ID
/// of the voter, the ID of the one they vote for, the votes.
pub fn record(who: u8, vote_for: u8, votes: u8) -> (bytes: [u8; 3])
    ensures
        bytes@ == seq![who, vote_for, votes],
{
    let bytes = [who, vote_for, votes];
    assert(bytes@ =~= seq![who, vote_for, votes]);
    bytes
}

} // verus!
