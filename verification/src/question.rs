//! A question of a DNS message.
use crate::field::{field_wire, parse_field, Field};
use crate::wire::splice;
use vstd::prelude::*;

verus! {

/// A question: the field that is asked about.
#[derive(Debug)]
pub struct Question {
    pub field: Field,
}

impl Question {
    pub fn new(name: String, f_type: u16, f_class: u16) -> (q: Self)
        ensures
            q.field.name == name,
            q.field.f_type == f_type,
            q.field.f_class == f_class,
    {
        Question { field: Field::new(name, f_type, f_class) }
    }

    /// Writes the question at the start of `buf`; returns the number of bytes written.
    pub fn into_slice(&self, buf: &mut [u8]) -> (n: usize)
        requires
            field_wire(self.field@).len() <= old(buf)@.len(),
        ensures
            final(buf)@ == splice(old(buf)@, 0, field_wire(self.field@)),
            n == field_wire(self.field@).len(),
    {
        self.field.into_slice(buf)
    }

    /// Reads the question at `pos`; returns it and the position after it.
    pub fn read(buf: &[u8], pos: usize) -> (res: (Question, usize))
        requires
            parse_field(buf@, pos as int) is Some,
        ensures
            parse_field(buf@, pos as int) == Some((res.0.field@, res.1 as int)),
    {
        let (field, pos) = Field::read_at(buf, pos);
        let question = Question { field };
        (question, pos)
    }
}

} // verus!
