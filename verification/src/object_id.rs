//! Object names: the 40 lowercase hexadecimal digits of a SHA-1 object id.
use vstd::prelude::*;
use crate::text::{chars_of, push_char};

verus! {

/// `c` is a lowercase hexadecimal digit.
pub open spec fn is_hex_digit(c: char) -> bool {
    ('0' <= c <= '9') || ('a' <= c <= 'f')
}

/// `s` spells an object id: 40 lowercase hexadecimal digits.
pub open spec fn is_object_id_text(s: Seq<char>) -> bool {
    s.len() == 40 && forall|i: int| 0 <= i < 40 ==> is_hex_digit(#[trigger] s[i])
}

/// The name of a git object, in hexadecimal.
pub struct ObjectId {
    hex: String,
}

impl View for ObjectId {
    type V = Seq<char>;

    closed spec fn view(&self) -> Seq<char> {
        self.hex@
    }
}

impl ObjectId {
    #[verifier::type_invariant]
    spec fn well_formed(self) -> bool {
        is_object_id_text(self.hex@)
    }

    /// The id spelled by `text`, when it spells one.
    pub fn from_hex(text: String) -> (id: Option<ObjectId>)
        ensures
            id is Some <==> is_object_id_text(text@),
            id matches Some(o) ==> o@ == text@,
    {
        let v = chars_of(text.as_str());
        if v.len() != 40 {
            return None;
        }
        let mut i: usize = 0;
        while i < 40
            invariant
                v@ == text@,
                v.len() == 40,
                i <= 40,
                forall|k: int| 0 <= k < i ==> is_hex_digit(#[trigger] v@[k]),
            decreases 40 - i,
        {
            let c = v[i];
            if !(('0' <= c && c <= '9') || ('a' <= c && c <= 'f')) {
                return None;
            }
            i = i + 1;
        }
        Some(ObjectId { hex: text })
    }

    /// The full id, 40 characters.
    pub fn hex(&self) -> (s: String)
        ensures
            s@ == self@,
            is_object_id_text(s@),
            s@.len() == 40,
    {
        proof {
            use_type_invariant(self);
        }
        self.hex.clone()
    }

    /// The abbreviated id: its first seven characters.
    pub fn short(&self) -> (s: String)
        ensures
            s@ == self@.take(7),
            s@.len() == 7,
    {
        proof {
            use_type_invariant(self);
        }
        let v = chars_of(self.hex.as_str());
        let mut s = String::new();
        let mut i: usize = 0;
        while i < 7
            invariant
                v@ == self@,
                v.len() == 40,
                i <= 7,
                s@ == self@.take(i as int),
            decreases 7 - i,
        {
            push_char(&mut s, v[i]);
            i = i + 1;
            assert(s@ =~= self@.take(i as int));
        }
        s
    }
}

} // verus!
