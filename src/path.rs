use vstd::prelude::*;

verus! {

/// The character sequences of a sequence of strings.
pub open spec fn strings_view(v: Seq<String>) -> Seq<Seq<char>> {
    v.map_values(|s: String| s@)
}

/// Index of the last '.' in `s`, or -1 where there is none.
pub open spec fn last_dot(s: Seq<char>) -> int
    decreases s.len(),
{
    if s.len() == 0 {
        -1
    } else if s.last() == '.' {
        s.len() - 1
    } else {
        last_dot(s.drop_last())
    }
}

/// The extension of a file name: what follows its last '.', provided that
/// the dot is not the name's first character and the name is not "..".
pub open spec fn extension_of(name: Seq<char>) -> Option<Seq<char>> {
    let i = last_dot(name);
    if name =~= seq!['.', '.'] || i <= 0 {
        None
    } else {
        Some(name.subrange(i + 1, name.len() as int))
    }
}

/// The extension of a path: that of its last component.
pub open spec fn path_extension(p: Seq<Seq<char>>) -> Option<Seq<char>> {
    if p.len() == 0 {
        None
    } else {
        extension_of(p.last())
    }
}

/// Whether some component of the path equals one of the names.
pub open spec fn has_segment_in(p: Seq<Seq<char>>, names: Seq<Seq<char>>) -> bool {
    exists|i: int, j: int| 0 <= i < p.len() && 0 <= j < names.len() && p[i] == names[j]
}

proof fn lemma_last_dot(s: Seq<char>, k: int)
    requires
        -1 <= k < s.len(),
        k >= 0 ==> s[k] == '.',
        forall|m: int| k < m < s.len() ==> s[m] != '.',
    ensures
        last_dot(s) == k,
    decreases s.len(),
{
    if s.len() > 0 && k < s.len() - 1 {
        lemma_last_dot(s.drop_last(), k);
    }
}

/// Whether the name's extension is exactly `ext`.
fn name_has_extension(name: &str, ext: &str) -> (r: bool)
    ensures
        r == (extension_of(name@) == Some(ext@)),
{
    let n = name.unicode_len();
    let mut j: usize = n;
    while j > 0 && name.get_char(j - 1) != '.'
        invariant
            j <= n == name@.len(),
            forall|m: int| j <= m < n ==> name@[m] != '.',
        decreases j,
    {
        j = j - 1;
    }
    proof {
        lemma_last_dot(name@, j as int - 1);
    }
    if j <= 1 {
        return false;
    }
    let dot = j - 1;
    if n == 2 && name.get_char(0) == '.' {
        assert(name@ =~= seq!['.', '.']);
        return false;
    }
    assert(!(name@ =~= seq!['.', '.'])) by {
        if name@ =~= seq!['.', '.'] {
            assert(name@[0] == '.');
        }
    }
    assert(extension_of(name@) == Some(name@.subrange(j as int, n as int)));
    let m = ext.unicode_len();
    if m != n - j {
        assert(name@.subrange(j as int, n as int).len() != ext@.len());
        return false;
    }
    let mut k: usize = 0;
    while k < m
        invariant
            k <= m == n - j,
            m == ext@.len(),
            n == name@.len(),
            j <= n,
            extension_of(name@) == Some(name@.subrange(j as int, n as int)),
            forall|q: int| 0 <= q < k ==> ext@[q] == name@[j + q],
        decreases m - k,
    {
        if ext.get_char(k) != name.get_char(j + k) {
            assert(name@.subrange(j as int, n as int)[k as int] != ext@[k as int]);
            return false;
        }
        k = k + 1;
    }
    assert(name@.subrange(j as int, n as int) =~= ext@);
    true
}

/// A filesystem path, held as the strings of its components in order.
#[derive(Clone, Debug)]
pub struct EntryPath {
    pub segments: Vec<String>,
}

impl View for EntryPath {
    type V = Seq<Seq<char>>;

    open spec fn view(&self) -> Seq<Seq<char>> {
        strings_view(self.segments@)
    }
}

impl EntryPath {
    /// A copy of this path that has the same components.
    pub fn duplicate(&self) -> (r: EntryPath)
        ensures
            r@ == self@,
    {
        let mut segments: Vec<String> = Vec::new();
        let mut i: usize = 0;
        while i < self.segments.len()
            invariant
                i <= self.segments.len(),
                segments@.len() == i,
                self@.len() == self.segments@.len(),
                strings_view(segments@) == self@.take(i as int),
            decreases self.segments.len() - i,
        {
            let s = self.segments[i].clone();
            assert(s@ == self@[i as int]);
            let ghost prev = segments@;
            segments.push(s);
            i = i + 1;
            assert forall|j: int| 0 <= j < i implies strings_view(segments@)[j] == self@[j] by {
                if j < i - 1 {
                    assert(segments@[j] == prev[j]);
                    assert(strings_view(prev)[j] == self@.take(i - 1)[j]);
                }
            }
            assert(strings_view(segments@) =~= self@.take(i as int));
        }
        assert(self@.take(i as int) =~= self@);
        EntryPath { segments }
    }

    /// Whether the extension of the path's last component is exactly `ext`
    /// (case-sensitive, `ext` without its leading dot).
    pub fn has_extension(&self, ext: &String) -> (r: bool)
        ensures
            r == (path_extension(self@) == Some(ext@)),
    {
        let n = self.segments.len();
        if n == 0 {
            return false;
        }
        name_has_extension(self.segments[n - 1].as_str(), ext.as_str())
    }

    /// Whether some component of the path equals one of `names`.
    pub fn has_segment_in(&self, names: &Vec<String>) -> (r: bool)
        ensures
            r == has_segment_in(self@, strings_view(names@)),
    {
        let mut i: usize = 0;
        while i < self.segments.len()
            invariant
                i <= self.segments.len(),
                self@.len() == self.segments@.len(),
                strings_view(names@).len() == names@.len(),
                forall|a: int, b: int|
                    0 <= a < i && 0 <= b < names@.len() ==> self@[a] != strings_view(names@)[b],
            decreases self.segments.len() - i,
        {
            let mut j: usize = 0;
            while j < names.len()
                invariant
                    i < self.segments.len(),
                    j <= names.len(),
                    self@.len() == self.segments@.len(),
                    strings_view(names@).len() == names@.len(),
                    forall|b: int| 0 <= b < j ==> self@[i as int] != strings_view(names@)[b],
                decreases names.len() - j,
            {
                if self.segments[i] == names[j] {
                    assert(self@[i as int] == strings_view(names@)[j as int]);
                    return true;
                }
                j = j + 1;
            }
            i = i + 1;
        }
        false
    }
}

} // verus!
