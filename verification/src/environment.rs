//! Snapshots of a process environment, with names and values held as the encoded
//! bytes of their OS strings.
use crate::platform::Platform;
use vstd::prelude::*;
use vstd::slice::slice_to_vec;

verus! {

/// One environment binding as plain byte sequences.
pub type Binding = (Seq<u8>, Seq<u8>);

/// The ASCII lower-case form of a byte; other bytes are unchanged.
pub open spec fn ascii_lower(b: u8) -> u8 {
    if 65 <= b && b <= 90 {
        (b + 32) as u8
    } else {
        b
    }
}

/// Whether two environment names (or paths) denote the same thing on `platform`:
/// byte for byte on Unix, ignoring ASCII case on Windows.
pub open spec fn names_match(actual: Seq<u8>, expected: Seq<u8>, platform: Platform) -> bool {
    match platform {
        Platform::Unix => actual == expected,
        Platform::Windows => actual.len() == expected.len() && forall|i: int|
            0 <= i < actual.len() ==> ascii_lower(#[trigger] actual[i]) == ascii_lower(expected[i]),
    }
}

/// The value of the first binding whose name matches `name`.
pub open spec fn lookup(variables: Seq<Binding>, name: Seq<u8>, platform: Platform) -> Option<
    Seq<u8>,
>
    decreases variables.len(),
{
    if variables.len() == 0 {
        None
    } else if names_match(variables[0].0, name, platform) {
        Some(variables[0].1)
    } else {
        lookup(variables.drop_first(), name, platform)
    }
}

/// The plain view of a vector of bindings.
pub open spec fn bindings_view(variables: Seq<(Vec<u8>, Vec<u8>)>) -> Seq<Binding> {
    variables.map_values(|pair: (Vec<u8>, Vec<u8>)| (pair.0@, pair.1@))
}

/// `str::eq_ignore_ascii_case` on bytes.
pub fn bytes_eq_ignore_ascii_case(a: &[u8], b: &[u8]) -> (r: bool)
    ensures
        r == names_match(a@, b@, Platform::Windows),
{
    if a.len() != b.len() {
        return false;
    }
    let mut i: usize = 0;
    while i < a.len()
        invariant
            a@.len() == b@.len(),
            0 <= i <= a@.len(),
            forall|k: int| 0 <= k < i ==> ascii_lower(#[trigger] a@[k]) == ascii_lower(b@[k]),
        decreases a@.len() - i,
    {
        let x = a[i];
        let y = b[i];
        let lx = if 65 <= x && x <= 90 { x + 32 } else { x };
        let ly = if 65 <= y && y <= 90 { y + 32 } else { y };
        if lx != ly {
            return false;
        }
        i = i + 1;
    }
    true
}

/// Whether an environment name matches the expected one on `platform`.
pub fn environment_name_equals(actual: &[u8], expected: &[u8], platform: Platform) -> (r: bool)
    ensures
        r == names_match(actual@, expected@, platform),
{
    match platform {
        Platform::Unix => crate::text::bytes_equal(actual, expected),
        Platform::Windows => bytes_eq_ignore_ascii_case(actual, expected),
    }
}

/// A copy of the bindings.
pub fn clone_bindings(variables: &Vec<(Vec<u8>, Vec<u8>)>) -> (r: Vec<(Vec<u8>, Vec<u8>)>)
    ensures
        bindings_view(r@) == bindings_view(variables@),
{
    let mut copy: Vec<(Vec<u8>, Vec<u8>)> = Vec::new();
    let mut i: usize = 0;
    while i < variables.len()
        invariant
            0 <= i <= variables@.len(),
            bindings_view(copy@) == bindings_view(variables@).take(i as int),
        decreases variables@.len() - i,
    {
        let name = slice_to_vec(variables[i].0.as_slice());
        let value = slice_to_vec(variables[i].1.as_slice());
        let ghost before = copy@;
        copy.push((name, value));
        assert(copy@ == before.push((name, value)));
        assert(bindings_view(before).len() == before.len());
        assert(before.len() == i);
        assert(bindings_view(copy@).len() == i + 1);
        assert forall|k: int| 0 <= k < i + 1 implies #[trigger] bindings_view(copy@)[k]
            == bindings_view(variables@).take(i + 1)[k] by {
            if k < i {
                assert(bindings_view(copy@)[k] == bindings_view(before)[k]);
            }
        }
        assert(bindings_view(copy@) =~= bindings_view(variables@).take(i + 1));
        i = i + 1;
    }
    assert(bindings_view(variables@).take(i as int) =~= bindings_view(variables@));
    copy
}

/// The environment of a client or of a tab, in the order the variables were listed.
pub struct EnvironmentSnapshot {
    variables: Vec<(Vec<u8>, Vec<u8>)>,
}

impl View for EnvironmentSnapshot {
    type V = Seq<Binding>;

    closed spec fn view(&self) -> Seq<Binding> {
        bindings_view(self.variables@)
    }
}

impl EnvironmentSnapshot {
    /// A snapshot holding the given bindings, in order.
    pub fn from_variables(variables: Vec<(Vec<u8>, Vec<u8>)>) -> (r: Self)
        ensures
            r@ == bindings_view(variables@),
    {
        Self { variables }
    }

    /// What a new-tab request carries from the client: on Windows nothing, since the
    /// daemon reads the user's environment itself; elsewhere the client's environment.
    pub fn for_new_tab_request(platform: Platform, client: Self) -> (r: Self)
        ensures
            platform == Platform::Windows ==> r@ == Seq::<Binding>::empty(),
            platform == Platform::Unix ==> r@ == client@,
    {
        match platform {
            Platform::Windows => {
                let r = Self { variables: Vec::new() };
                assert(r@ =~= Seq::<Binding>::empty());
                r
            },
            Platform::Unix => client,
        }
    }

    /// A copy of the bindings, in order.
    pub fn variables(&self) -> (r: Vec<(Vec<u8>, Vec<u8>)>)
        ensures
            bindings_view(r@) == self@,
    {
        clone_bindings(&self.variables)
    }

    /// The value of the first variable whose name matches `expected_name` on `platform`.
    pub fn value(&self, expected_name: &[u8], platform: Platform) -> (r: Option<Vec<u8>>)
        ensures
            match lookup(self@, expected_name@, platform) {
                Some(v) => r matches Some(found) && found@ == v,
                None => r is None,
            },
    {
        let ghost all = self@;
        let mut i: usize = 0;
        assert(all.skip(0) =~= all);
        while i < self.variables.len()
            invariant
                all == bindings_view(self.variables@),
                0 <= i <= all.len(),
                lookup(all, expected_name@, platform) == lookup(
                    all.skip(i as int),
                    expected_name@,
                    platform,
                ),
            decreases all.len() - i,
        {
            let pair = &self.variables[i];
            assert(all.skip(i as int)[0] == (pair.0@, pair.1@));
            if environment_name_equals(pair.0.as_slice(), expected_name, platform) {
                return Some(slice_to_vec(pair.1.as_slice()));
            }
            assert(all.skip(i as int).drop_first() =~= all.skip(i + 1));
            i = i + 1;
        }
        None
    }
}

} // verus!
