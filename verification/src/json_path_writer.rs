//! Flattened JSON paths, as they are written down term by term.
use vstd::prelude::*;

verus! {

/// Separates the segments of a JSON path.
pub const JSON_PATH_SEGMENT_SEP: u8 = 1;

/// [`JSON_PATH_SEGMENT_SEP`] as a string.
pub const JSON_PATH_SEGMENT_SEP_STR: &'static str = "\u{1}";

/// Separates the JSON path from the value in a term.
pub const JSON_END_OF_PATH: u8 = 0;

/// [`JSON_END_OF_PATH`] as a string.
pub const JSON_END_OF_PATH_STR: &'static str = "\u{0}";

/// `String::push` puts one character behind the others.
pub assume_specification[ String::push ](string: &mut String, ch: char)
    ensures
        final(string)@ == old(string)@.push(ch),
;

/// `String::truncate` keeps the first `new_len` bytes of the UTF-8 encoding, or everything
/// where there are no more than that. It panics when `new_len` cuts a character in two.
pub assume_specification[ String::truncate ](string: &mut String, new_len: usize)
    requires
        new_len < vstd::utf8::encode_utf8(old(string)@).len() ==> vstd::utf8::is_char_boundary(
            vstd::utf8::encode_utf8(old(string)@),
            new_len as int,
        ),
    ensures
        new_len < vstd::utf8::encode_utf8(old(string)@).len() ==> vstd::utf8::encode_utf8(
            final(string)@,
        ) == vstd::utf8::encode_utf8(old(string)@).take(new_len as int),
        new_len >= vstd::utf8::encode_utf8(old(string)@).len() ==> final(string)@ == old(
            string,
        )@,
;

/// One array on the way to a value: which array it is, and which of its elements leads to
/// the value.
#[derive(Clone, Copy, Debug, Default, Eq, PartialEq, Hash, Structural)]
pub struct JsonArrayPathEntry {
    pub path_id: u32,
    pub element_ord: u32,
}

/// The character between two segments.
pub open spec fn separator() -> char {
    JSON_PATH_SEGMENT_SEP as char
}

/// The character at the end of a path.
pub open spec fn end_of_path() -> char {
    JSON_END_OF_PATH as char
}

/// `segment` with a separator in place of each dot.
pub open spec fn dots_expanded(segment: Seq<char>) -> Seq<char> {
    segment.map_values(
        |c: char|
            if c == '.' {
                separator()
            } else {
                c
            },
    )
}

/// What a writer holds.
#[verifier::ext_equal]
pub struct PathState {
    /// The path as it stands.
    pub path: Seq<char>,
    /// The path as it stood before each segment that can still be removed.
    pub before_segments: Seq<Seq<char>>,
    /// Whether a dot separates segments.
    pub expand_dots: bool,
    /// The arrays that are open, from the outermost one inwards.
    pub array_entries: Seq<JsonArrayPathEntry>,
}

impl PathState {
    /// What it becomes when `segment` is added.
    pub open spec fn push(self, segment: Seq<char>) -> PathState {
        let separated = if self.before_segments.len() > 0 {
            self.path.push(separator())
        } else {
            self.path
        };
        PathState {
            path: separated + if self.expand_dots {
                dots_expanded(segment)
            } else {
                segment
            },
            before_segments: self.before_segments.push(self.path),
            ..self
        }
    }

    /// What it becomes when `segments` are added one after the other.
    pub open spec fn push_all(self, segments: Seq<Seq<char>>) -> PathState
        decreases segments.len(),
    {
        if segments.len() == 0 {
            self
        } else {
            self.push(segments[0]).push_all(segments.drop_first())
        }
    }

    /// What it becomes when the last segment is removed.
    pub open spec fn pop(self) -> PathState {
        if self.before_segments.len() > 0 {
            PathState {
                path: self.before_segments.last(),
                before_segments: self.before_segments.drop_last(),
                ..self
            }
        } else {
            self
        }
    }

    /// What it becomes when the end of the path is marked.
    pub open spec fn set_end(self) -> PathState {
        PathState { path: self.path.push(end_of_path()), ..self }
    }

    /// What it becomes when an array is opened.
    pub open spec fn push_array_context(self, path_id: u32) -> PathState {
        PathState {
            array_entries: self.array_entries.push(JsonArrayPathEntry { path_id, element_ord: 0 }),
            ..self
        }
    }

    /// What it becomes when the innermost open array goes on to another element.
    pub open spec fn set_current_array_ordinal(self, element_ord: u32) -> PathState {
        if self.array_entries.len() > 0 {
            PathState {
                array_entries: self.array_entries.drop_last().push(
                    JsonArrayPathEntry { path_id: self.array_entries.last().path_id, element_ord },
                ),
                ..self
            }
        } else {
            self
        }
    }

    /// What it becomes when the innermost open array is closed.
    pub open spec fn pop_array_context(self) -> PathState {
        if self.array_entries.len() > 0 {
            PathState { array_entries: self.array_entries.drop_last(), ..self }
        } else {
            self
        }
    }
}

/// What adding a segment does to a path, character by character: the path as it stood comes
/// first, then a separator unless there were no segments, and then the characters of the
/// segment, each as it is but for a dot where dots are expanded, which becomes a separator.
pub proof fn lemma_push_characters(state: PathState, segment: Seq<char>)
    ensures
        ({
            let pushed = state.push(segment);
            let added = if state.before_segments.len() == 0 {
                0int
            } else {
                1int
            };
            let from = state.path.len() + added;
            &&& pushed.path.len() == from + segment.len()
            &&& forall|i: int| 0 <= i < state.path.len() ==> pushed.path[i] == state.path[i]
            &&& added == 1 ==> pushed.path[state.path.len() as int] == '\u{1}'
            &&& forall|i: int|
                #![trigger segment[i]]
                #![trigger pushed.path[from + i]]
                0 <= i < segment.len() && (segment[i] != '.' || !state.expand_dots)
                    ==> pushed.path[from + i] == segment[i]
            &&& forall|i: int|
                #![trigger segment[i]]
                #![trigger pushed.path[from + i]]
                0 <= i < segment.len() && segment[i] == '.' && state.expand_dots
                    ==> pushed.path[from + i] == '\u{1}'
            &&& pushed.before_segments.len() == state.before_segments.len() + 1
            &&& pushed.before_segments.last() == state.path
            &&& forall|i: int|
                0 <= i < state.before_segments.len() ==> pushed.before_segments[i]
                    == state.before_segments[i]
            &&& pushed.expand_dots == state.expand_dots
            &&& pushed.array_entries == state.array_entries
        }),
{
    let dots = dots_expanded(segment);
    assert(dots.len() == segment.len());
    assert(separator() == '\u{1}');
    assert(forall|i: int| 0 <= i < segment.len() && segment[i] != '.' ==> dots[i] == segment[i]);
    assert(forall|i: int| 0 <= i < segment.len() && segment[i] == '.' ==> dots[i] == separator());
}

/// A segment without a dot is written alike whether or not dots are expanded.
pub proof fn lemma_dotless_segment(state: PathState, segment: Seq<char>, expand_dots: bool)
    requires
        !segment.contains('.'),
    ensures
        (PathState { expand_dots, ..state }).push(segment).path == (PathState {
            expand_dots: !expand_dots,
            ..state
        }).push(segment).path,
{
    let one = (PathState { expand_dots, ..state }).push(segment).path;
    let other = (PathState { expand_dots: !expand_dots, ..state }).push(segment).path;
    lemma_push_characters(PathState { expand_dots, ..state }, segment);
    lemma_push_characters(PathState { expand_dots: !expand_dots, ..state }, segment);
    assert(forall|i: int| 0 <= i < segment.len() ==> segment.contains(segment[i]));
    let from = one.len() - segment.len();
    assert forall|i: int| 0 <= i < one.len() implies one[i] == other[i] by {
        if i >= from {
            let j = i - from;
            assert(segment[j] != '.');
            assert(one[from + j] == segment[j]);
            assert(other[from + j] == segment[j]);
        }
    }
    assert(one =~= other);
}

/// What the end of the path, and opening, going on in and closing an array do, and removing a
/// segment. Each leaves everything else as it was.
pub proof fn lemma_other_changes(state: PathState, path_id: u32, element_ord: u32)
    ensures
        state.set_end() == (PathState { path: state.path.push('\u{0}'), ..state }),
        state.before_segments.len() == 0 ==> state.pop() == state,
        state.before_segments.len() > 0 ==> state.pop() == (PathState {
            path: state.before_segments[state.before_segments.len() - 1],
            before_segments: state.before_segments.take(state.before_segments.len() - 1),
            ..state
        }),
        state.push_array_context(path_id) == (PathState {
            array_entries: state.array_entries.push(
                JsonArrayPathEntry { path_id, element_ord: 0 },
            ),
            ..state
        }),
        state.array_entries.len() == 0 ==> state.set_current_array_ordinal(element_ord) == state
            && state.pop_array_context() == state,
        state.array_entries.len() > 0 ==> state.set_current_array_ordinal(element_ord) == (
        PathState {
            array_entries: state.array_entries.update(
                state.array_entries.len() - 1,
                JsonArrayPathEntry {
                    path_id: state.array_entries[state.array_entries.len() - 1].path_id,
                    element_ord,
                },
            ),
            ..state
        }),
        state.array_entries.len() > 0 ==> state.pop_array_context() == (PathState {
            array_entries: state.array_entries.take(state.array_entries.len() - 1),
            ..state
        }),
{
    assert(end_of_path() == '\u{0}');
    if state.before_segments.len() > 0 {
        assert(state.before_segments.drop_last() =~= state.before_segments.take(
            state.before_segments.len() - 1,
        ));
    }
    if state.array_entries.len() > 0 {
        assert(state.array_entries.drop_last() =~= state.array_entries.take(
            state.array_entries.len() - 1,
        ));
        assert(state.set_current_array_ordinal(element_ord).array_entries
            =~= state.array_entries.update(
            state.array_entries.len() - 1,
            JsonArrayPathEntry {
                path_id: state.array_entries[state.array_entries.len() - 1].path_id,
                element_ord,
            },
        ));
    }
}

/// Removing a segment undoes adding it, also where the end of the path was marked in
/// between.
pub proof fn lemma_pop_undoes_push(state: PathState, segment: Seq<char>)
    ensures
        state.push(segment).pop() == state,
        state.push(segment).set_end().pop() == state,
{
    assert(state.push(segment).pop() =~= state);
    assert(state.push(segment).set_end().pop() =~= state);
}

/// Closing an array undoes opening it, whichever element it had gone on to.
pub proof fn lemma_pop_array_context_undoes_push(state: PathState, path_id: u32, element_ord: u32)
    ensures
        state.push_array_context(path_id).pop_array_context() == state,
        state.push_array_context(path_id).set_current_array_ordinal(element_ord).pop_array_context()
            == state,
{
    assert(state.push_array_context(path_id).pop_array_context() =~= state);
    assert(state.push_array_context(path_id).set_current_array_ordinal(
        element_ord,
    ).pop_array_context() =~= state);
}

/// Where a dot separates segments, a key with a dot gives the same path as the two nested
/// keys that the dot separates.
pub proof fn lemma_dot_nests(state: PathState, outer: Seq<char>, inner: Seq<char>)
    requires
        state.expand_dots,
    ensures
        state.push(outer.push('.') + inner).path == state.push(outer).push(inner).path,
{
    assert(dots_expanded(outer.push('.') + inner) =~= dots_expanded(outer).push(separator())
        + dots_expanded(inner));
    assert(state.push(outer.push('.') + inner).path =~= state.push(outer).push(inner).path);
}

/// Writes down the path to a value, and the arrays on the way to it.
#[derive(Debug)]
pub struct JsonPathWriter {
    path: String,
    // The length of the path, in bytes, before each segment.
    indices: Vec<usize>,
    expand_dots: bool,
    array_entries: Vec<JsonArrayPathEntry>,
}

/// The first characters of `path` whose encoding takes `len` bytes.
spec fn chars_of_len(path: Seq<char>, len: nat) -> Seq<char> {
    vstd::utf8::decode_utf8(vstd::utf8::encode_utf8(path).take(len as int))
}

/// True when the first `count` characters of `path` take `len` bytes.
spec fn cuts_at(path: Seq<char>, count: int, len: nat) -> bool {
    0 <= count <= path.len() && vstd::utf8::encode_utf8(path.take(count)).len() == len
}

/// True when `len` bytes of `path` are whole characters.
spec fn is_cut(path: Seq<char>, len: nat) -> bool {
    exists|count: int| cuts_at(path, count, len)
}

proof fn lemma_encode_concat(a: Seq<char>, b: Seq<char>)
    ensures
        vstd::utf8::encode_utf8(a + b) == vstd::utf8::encode_utf8(a) + vstd::utf8::encode_utf8(b),
    decreases a.len(),
{
    if a.len() == 0 {
        assert(a + b =~= b);
        assert(vstd::utf8::encode_utf8(a) + vstd::utf8::encode_utf8(b) =~= vstd::utf8::encode_utf8(
            b,
        ));
    } else {
        lemma_encode_concat(a.drop_first(), b);
        assert((a + b).drop_first() =~= a.drop_first() + b);
        assert(vstd::utf8::encode_utf8(a + b) =~= vstd::utf8::encode_utf8(a)
            + vstd::utf8::encode_utf8(b));
    }
}

/// A cut between two characters is a character boundary, and keeps the characters before it.
proof fn lemma_cut(path: Seq<char>, count: int)
    requires
        0 <= count <= path.len(),
    ensures
        ({
            let bytes = vstd::utf8::encode_utf8(path);
            let len = vstd::utf8::encode_utf8(path.take(count)).len() as int;
            &&& len <= bytes.len()
            &&& bytes.take(len) == vstd::utf8::encode_utf8(path.take(count))
            &&& vstd::utf8::is_char_boundary(bytes, len)
            &&& chars_of_len(path, len as nat) == path.take(count)
        }),
    decreases count,
{
    let head = path.take(count);
    let bytes = vstd::utf8::encode_utf8(path);
    let len = vstd::utf8::encode_utf8(head).len() as int;
    lemma_encode_concat(head, path.skip(count));
    assert(head + path.skip(count) =~= path);
    assert(bytes.take(len) =~= vstd::utf8::encode_utf8(head));
    vstd::utf8::encode_utf8_decode_utf8(head);
    vstd::utf8::encode_utf8_valid_utf8(path);
    if count == 0 {
    } else {
        let rest = path.drop_first();
        lemma_cut(rest, count - 1);
        vstd::utf8::encode_utf8_first_scalar(path);
        assert(vstd::utf8::pop_first_scalar(bytes) =~= vstd::utf8::encode_utf8(rest));
        assert(head.drop_first() =~= rest.take(count - 1));
        let first = vstd::utf8::encode_scalar(path[0] as u32);
        assert(vstd::utf8::encode_utf8(head) =~= first + vstd::utf8::encode_utf8(
            rest.take(count - 1),
        ));
        assert(len == first.len() + vstd::utf8::encode_utf8(rest.take(count - 1)).len());
        vstd::utf8::encode_utf8_valid_utf8(rest);
    }
}

/// Characters that are put behind a path leave its cuts as they are.
proof fn lemma_cut_of_longer(path: Seq<char>, more: Seq<char>, count: int, len: nat)
    requires
        cuts_at(path, count, len),
    ensures
        cuts_at(path + more, count, len),
        chars_of_len(path + more, len) == chars_of_len(path, len),
{
    assert((path + more).take(count) =~= path.take(count));
    lemma_cut(path, count);
    lemma_cut(path + more, count);
}

impl JsonPathWriter {
    /// What the writer holds.
    pub closed spec fn view(&self) -> PathState {
        PathState {
            path: self.path@,
            before_segments: Seq::new(
                self.indices@.len(),
                |i: int| chars_of_len(self.path@, self.indices@[i] as nat),
            ),
            expand_dots: self.expand_dots,
            array_entries: self.array_entries@,
        }
    }

    /// True of every writer.
    pub closed spec fn wf(&self) -> bool {
        &&& forall|i: int|
            0 <= i < self.indices@.len() ==> is_cut(self.path@, #[trigger] self.indices@[i] as nat)
        &&& forall|i: int, j: int|
            0 <= i <= j < self.indices@.len() ==> self.indices@[i] <= self.indices@[j]
    }

    /// A writer with an empty path.
    pub fn with_expand_dots(expand_dots: bool) -> (writer: Self)
        ensures
            writer.wf(),
            writer@ == (PathState {
                path: Seq::empty(),
                before_segments: Seq::empty(),
                expand_dots,
                array_entries: Seq::empty(),
            }),
    {
        let writer = JsonPathWriter {
            path: String::new(),
            indices: Vec::new(),
            expand_dots,
            array_entries: Vec::new(),
        };
        assert(writer@.before_segments =~= Seq::empty());
        writer
    }

    /// A writer with an empty path, to which a dot is a character like any other.
    pub fn new() -> (writer: Self)
        ensures
            writer.wf(),
            writer@ == (PathState {
                path: Seq::empty(),
                before_segments: Seq::empty(),
                expand_dots: false,
                array_entries: Seq::empty(),
            }),
    {
        JsonPathWriter::with_expand_dots(false)
    }

    /// Says whether a dot separates segments from now on.
    ///
    /// With it, an object like `{"k8s.node.id": 5}` is written as if it were
    /// `{"k8s": {"node": {"id": 5}}}`.
    pub fn set_expand_dots(&mut self, expand_dots: bool)
        requires
            old(self).wf(),
        ensures
            final(self).wf(),
            final(self)@ == (PathState { expand_dots, ..old(self)@ }),
    {
        self.expand_dots = expand_dots;
        assert(self@ =~= PathState { expand_dots, ..old(self)@ });
    }

    proof fn lemma_longer(self, longer: JsonPathWriter, more: Seq<char>)
        requires
            self.wf(),
            longer.path@ == self.path@ + more,
            longer.indices@ == self.indices@,
        ensures
            longer.wf(),
            longer@.before_segments == self@.before_segments,
    {
        assert forall|i: int| 0 <= i < longer.indices@.len() implies is_cut(
            longer.path@,
            #[trigger] longer.indices@[i] as nat,
        ) && chars_of_len(
            longer.path@,
            longer.indices@[i] as nat,
        ) == chars_of_len(self.path@, longer.indices@[i] as nat) by {
            let len = self.indices@[i] as nat;
            let count = choose|count: int| cuts_at(self.path@, count, len);
            lemma_cut_of_longer(self.path@, more, count, len);
        }
        assert(longer@.before_segments =~= self@.before_segments);
    }

    /// Adds a segment to the path.
    pub fn push(&mut self, segment: &str)
        requires
            old(self).wf(),
        ensures
            final(self).wf(),
            final(self)@ == old(self)@.push(segment@),
    {
        let len_path: usize = self.path.as_str().as_bytes().len();
        self.indices.push(len_path);
        let ghost marked = *self;
        proof {
            let path = self.path@;
            lemma_cut(path, path.len() as int);
            assert(path.take(path.len() as int) =~= path);
            assert(cuts_at(path, path.len() as int, len_path as nat));
            assert forall|i: int| 0 <= i < self.indices@.len() implies is_cut(
                path,
                #[trigger] self.indices@[i] as nat,
            ) && self.indices@[i] <= len_path by {
                if i < old(self).indices@.len() {
                    assert(self.indices@[i] == old(self).indices@[i]);
                    let count = choose|count: int|
                        cuts_at(path, count, old(self).indices@[i] as nat);
                    lemma_cut(path, count);
                }
            }
            assert(marked@.before_segments =~= old(self)@.before_segments.push(path));
        }
        if self.indices.len() > 1 {
            self.path.append(JSON_PATH_SEGMENT_SEP_STR);
        }
        proof {
            reveal_strlit("\u{1}");
            assert(JSON_PATH_SEGMENT_SEP_STR@ =~= seq![separator()]);
            assert(self.path@ =~= if old(self)@.before_segments.len() > 0 {
                old(self).path@.push(separator())
            } else {
                old(self).path@
            });
        }
        let ghost separated = self.path@;
        if self.expand_dots {
            for c in chars: segment.chars()
                invariant
                    self.indices == marked.indices,
                    self.expand_dots == marked.expand_dots,
                    self.array_entries == marked.array_entries,
                    chars.seq() == segment@,
                    self.path@ == separated + dots_expanded(segment@.take(chars.index() as int)),
            {
                let ghost done = segment@.take(chars.index() as int);
                if c == '.' {
                    self.path.push(JSON_PATH_SEGMENT_SEP as char);
                } else {
                    self.path.push(c);
                }
                proof {
                    assert(segment@.take(chars.index() + 1) =~= done.push(c));
                    assert(separated + dots_expanded(done.push(c)) =~= (separated + dots_expanded(
                        done,
                    )).push(
                        if c == '.' {
                            separator()
                        } else {
                            c
                        },
                    ));
                }
            }
            assert(segment@.take(segment@.len() as int) =~= segment@);
        } else {
            self.path.append(segment);
        }
        proof {
            let more = self.path@.skip(marked.path@.len() as int);
            assert(self.path@ =~= marked.path@ + more);
            marked.lemma_longer(*self, more);
            assert(self@ =~= old(self)@.push(segment@));
        }
    }

    /// Marks the end of the path.
    pub fn set_end(&mut self)
        requires
            old(self).wf(),
        ensures
            final(self).wf(),
            final(self)@ == old(self)@.set_end(),
    {
        self.path.append(JSON_END_OF_PATH_STR);
        proof {
            reveal_strlit("\u{0}");
            assert(JSON_END_OF_PATH_STR@ =~= seq![end_of_path()]);
            old(self).lemma_longer(*self, seq![end_of_path()]);
            assert(self@ =~= old(self)@.set_end());
        }
    }

    /// Removes the last segment, if there is one.
    pub fn pop(&mut self)
        requires
            old(self).wf(),
        ensures
            final(self).wf(),
            final(self)@ == old(self)@.pop(),
    {
        if let Some(last_idx) = self.indices.pop() {
            let ghost path = old(self).path@;
            let ghost last = old(self).indices@.len() - 1;
            let ghost count = choose|count: int|
                cuts_at(path, count, old(self).indices@[last] as nat);
            proof {
                assert(old(self).indices@[last] == last_idx);
                lemma_cut(path, count);
            }
            self.path.truncate(last_idx);
            proof {
                vstd::utf8::encode_utf8_decode_utf8(self.path@);
                vstd::utf8::encode_utf8_decode_utf8(path.take(count));
                assert(vstd::utf8::encode_utf8(path).take(
                    vstd::utf8::encode_utf8(path).len() as int,
                ) =~= vstd::utf8::encode_utf8(path));
                vstd::utf8::encode_utf8_decode_utf8(path);
                assert(self.path@ =~= path.take(count));
                assert forall|i: int| 0 <= i < self.indices@.len() implies is_cut(
                    self.path@,
                    #[trigger] self.indices@[i] as nat,
                ) && chars_of_len(
                    self.path@,
                    self.indices@[i] as nat,
                ) == chars_of_len(path, self.indices@[i] as nat) by {
                    assert(self.indices@[i] == old(self).indices@[i]);
                    let len = self.indices@[i] as nat;
                    let c = choose|c: int| cuts_at(path, c, len);
                    lemma_cut(path, c);
                    lemma_shorter_cut(path, c, count);
                    assert(path.take(count).take(c) =~= path.take(c));
                    assert(cuts_at(self.path@, c, len));
                    lemma_cut(self.path@, c);
                }
                assert(self@ =~= old(self)@.pop());
            }
        } else {
            assert(self@ =~= old(self)@.pop());
        }
    }

    /// Makes the path empty, and closes all arrays.
    pub fn clear(&mut self)
        ensures
            final(self).wf(),
            final(self)@ == (PathState {
                path: Seq::empty(),
                before_segments: Seq::empty(),
                expand_dots: old(self)@.expand_dots,
                array_entries: Seq::empty(),
            }),
    {
        self.path = String::new();
        self.indices.clear();
        self.array_entries.clear();
        assert(self@.before_segments =~= Seq::empty());
    }

    /// The path as it stands.
    pub fn as_str(&self) -> (path: &str)
        ensures
            path@ == self@.path,
    {
        self.path.as_str()
    }

    /// Opens an array at the path as it stands.
    pub fn push_array_context(&mut self, path_id: u32)
        requires
            old(self).wf(),
        ensures
            final(self).wf(),
            final(self)@ == old(self)@.push_array_context(path_id),
    {
        self.array_entries.push(JsonArrayPathEntry { path_id, element_ord: 0 });
        assert(self@ =~= old(self)@.push_array_context(path_id));
    }

    /// Goes on to another element of the innermost open array, if there is one.
    pub fn set_current_array_ordinal(&mut self, element_ord: u32)
        requires
            old(self).wf(),
        ensures
            final(self).wf(),
            final(self)@ == old(self)@.set_current_array_ordinal(element_ord),
    {
        let len: usize = self.array_entries.len();
        if len > 0 {
            let path_id: u32 = self.array_entries[len - 1].path_id;
            self.array_entries[len - 1] = JsonArrayPathEntry { path_id, element_ord };
        }
        assert(self@ =~= old(self)@.set_current_array_ordinal(element_ord));
    }

    /// Closes the innermost open array, if there is one.
    pub fn pop_array_context(&mut self)
        requires
            old(self).wf(),
        ensures
            final(self).wf(),
            final(self)@ == old(self)@.pop_array_context(),
    {
        let _ = self.array_entries.pop();
        assert(self@ =~= old(self)@.pop_array_context());
    }

    /// The arrays that are open, from the outermost one inwards.
    pub fn array_entries(&self) -> (entries: &[JsonArrayPathEntry])
        ensures
            entries@ == self@.array_entries,
    {
        self.array_entries.as_slice()
    }

    /// Closes all arrays.
    pub fn clear_array_entries(&mut self)
        requires
            old(self).wf(),
        ensures
            final(self).wf(),
            final(self)@ == (PathState { array_entries: Seq::empty(), ..old(self)@ }),
    {
        self.array_entries.clear();
        assert(self@ =~= PathState { array_entries: Seq::empty(), ..old(self)@ });
    }
}

/// Of two cuts, the one with fewer bytes has no more characters.
proof fn lemma_shorter_cut(path: Seq<char>, a: int, b: int)
    requires
        0 <= a <= path.len(),
        0 <= b <= path.len(),
        vstd::utf8::encode_utf8(path.take(a)).len() <= vstd::utf8::encode_utf8(
            path.take(b),
        ).len(),
    ensures
        a <= b,
{
    if a > b {
        let between = path.subrange(b, a);
        lemma_encode_concat(path.take(b), between);
        assert(path.take(b) + between =~= path.take(a));
        assert(vstd::utf8::encode_scalar(between[0] as u32).len() > 0);
    }
}

impl Default for JsonPathWriter {
    fn default() -> (writer: Self)
        ensures
            writer.wf(),
            writer@ == (PathState {
                path: Seq::empty(),
                before_segments: Seq::empty(),
                expand_dots: false,
                array_entries: Seq::empty(),
            }),
    {
        JsonPathWriter::new()
    }
}

impl Clone for JsonPathWriter {
    fn clone(&self) -> (copy: Self)
        ensures
            self.wf() ==> copy.wf(),
            copy@ == self@,
    {
        let copy = JsonPathWriter {
            path: self.path.clone(),
            indices: self.indices.clone(),
            expand_dots: self.expand_dots,
            array_entries: self.array_entries.clone(),
        };
        assert(copy.indices@ =~= self.indices@);
        assert(copy.array_entries@ =~= self.array_entries@);
        copy
    }
}

/// True when `one` comes before `other`, byte by byte.
pub open spec fn bytes_before(one: Seq<u8>, other: Seq<u8>) -> bool
    decreases one.len(),
{
    other.len() > 0 && (one.len() == 0 || one[0] < other[0] || (one[0] == other[0]
        && bytes_before(one.drop_first(), other.drop_first())))
}

/// True when `one` comes before `other`, segment by segment.
pub open spec fn segments_before(one: Seq<Seq<u8>>, other: Seq<Seq<u8>>) -> bool
    decreases one.len(),
{
    other.len() > 0 && (one.len() == 0 || bytes_before(one[0], other[0]) || (one[0] == other[0]
        && segments_before(one.drop_first(), other.drop_first())))
}

/// The bytes of each segment.
pub open spec fn segment_bytes(segments: Seq<Seq<char>>) -> Seq<Seq<u8>> {
    segments.map_values(|segment: Seq<char>| vstd::utf8::encode_utf8(segment))
}

/// The bytes of the path that `segments` are written down as, with its end marked.
pub open spec fn path_bytes(segments: Seq<Seq<char>>) -> Seq<u8> {
    vstd::utf8::encode_utf8(
        (PathState {
            path: Seq::empty(),
            before_segments: Seq::empty(),
            expand_dots: false,
            array_entries: Seq::empty(),
        }).push_all(segments).set_end().path,
    )
}

/// True when no byte of a segment is one that separates segments or ends a path.
pub open spec fn plain_bytes(segment: Seq<u8>) -> bool {
    forall|i: int| 0 <= i < segment.len() ==> (#[trigger] segment[i]) > JSON_PATH_SEGMENT_SEP
}

/// True when that is so of each of several segments.
pub open spec fn all_plain(segments: Seq<Seq<u8>>) -> bool {
    forall|i: int| 0 <= i < segments.len() ==> plain_bytes(#[trigger] segments[i])
}

/// What follows the first segment of a path.
spec fn later_bytes(segments: Seq<Seq<u8>>) -> Seq<u8>
    decreases segments.len(),
{
    if segments.len() == 0 {
        seq![JSON_END_OF_PATH]
    } else {
        seq![JSON_PATH_SEGMENT_SEP] + segments[0] + later_bytes(segments.drop_first())
    }
}

proof fn lemma_marks_encoded()
    ensures
        vstd::utf8::encode_utf8(seq![separator()]) == seq![JSON_PATH_SEGMENT_SEP],
        vstd::utf8::encode_utf8(seq![end_of_path()]) == seq![JSON_END_OF_PATH],
{
    reveal_with_fuel(vstd::utf8::encode_utf8, 2);
    assert(1u32 & 0x7F == 1u32) by (bit_vector);
    assert(0u32 & 0x7F == 0u32) by (bit_vector);
    assert(seq![separator()].drop_first() =~= Seq::<char>::empty());
    assert(seq![end_of_path()].drop_first() =~= Seq::<char>::empty());
    assert(vstd::utf8::encode_utf8(seq![separator()]) =~= seq![JSON_PATH_SEGMENT_SEP]);
    assert(vstd::utf8::encode_utf8(seq![end_of_path()]) =~= seq![JSON_END_OF_PATH]);
}

/// What segments add to a path that has some.
proof fn lemma_later_bytes(state: PathState, segments: Seq<Seq<char>>)
    requires
        !state.expand_dots,
        state.before_segments.len() > 0,
    ensures
        vstd::utf8::encode_utf8(state.push_all(segments).set_end().path)
            == vstd::utf8::encode_utf8(state.path) + later_bytes(segment_bytes(segments)),
    decreases segments.len(),
{
    lemma_marks_encoded();
    let bytes = segment_bytes(segments);
    if segments.len() == 0 {
        assert(state.set_end().path =~= state.path + seq![end_of_path()]);
        lemma_encode_concat(state.path, seq![end_of_path()]);
    } else {
        let next = state.push(segments[0]);
        lemma_later_bytes(next, segments.drop_first());
        assert(bytes.drop_first() =~= segment_bytes(segments.drop_first()));
        assert(next.path =~= state.path + (seq![separator()] + segments[0]));
        lemma_encode_concat(state.path, seq![separator()] + segments[0]);
        lemma_encode_concat(seq![separator()], segments[0]);
        assert(vstd::utf8::encode_utf8(state.path) + later_bytes(bytes)
            =~= vstd::utf8::encode_utf8(next.path) + later_bytes(bytes.drop_first()));
    }
}

/// The bytes of a path are those of its segments, with marks between them and at the end.
proof fn lemma_path_bytes(segments: Seq<Seq<char>>)
    requires
        segments.len() > 0,
    ensures
        path_bytes(segments) == segment_bytes(segments)[0] + later_bytes(
            segment_bytes(segments).drop_first(),
        ),
{
    let start = PathState {
        path: Seq::empty(),
        before_segments: Seq::empty(),
        expand_dots: false,
        array_entries: Seq::empty(),
    };
    let first = start.push(segments[0]);
    assert(first.path =~= segments[0]);
    lemma_later_bytes(first, segments.drop_first());
    assert(segment_bytes(segments).drop_first() =~= segment_bytes(segments.drop_first()));
}

/// Bytes before a mark decide first.
proof fn lemma_before_mark(one: Seq<u8>, other: Seq<u8>, after_one: Seq<u8>, after_other: Seq<u8>)
    requires
        plain_bytes(one),
        plain_bytes(other),
        after_one.len() > 0 && after_one[0] <= JSON_PATH_SEGMENT_SEP,
        after_other.len() > 0 && after_other[0] <= JSON_PATH_SEGMENT_SEP,
    ensures
        bytes_before(one + after_one, other + after_other) <==> bytes_before(one, other) || (one
            == other && bytes_before(after_one, after_other)),
        one + after_one == other + after_other <==> one == other && after_one == after_other,
    decreases one.len(),
{
    let all_one = one + after_one;
    let all_other = other + after_other;
    if one.len() == 0 {
        assert(all_one =~= after_one);
        if other.len() == 0 {
            assert(all_other =~= after_other);
            assert(one =~= other);
        } else {
            assert(all_other[0] == other[0] > JSON_PATH_SEGMENT_SEP);
        }
    } else if other.len() == 0 {
        assert(all_other =~= after_other);
        assert(all_one[0] == one[0] > JSON_PATH_SEGMENT_SEP);
    } else {
        assert(all_one[0] == one[0]);
        assert(all_other[0] == other[0]);
        let rest_one = one.drop_first();
        let rest_other = other.drop_first();
        assert(all_one.drop_first() =~= rest_one + after_one);
        assert(all_other.drop_first() =~= rest_other + after_other);
        lemma_before_mark(rest_one, rest_other, after_one, after_other);
        assert(one =~= seq![one[0]] + rest_one);
        assert(other =~= seq![other[0]] + rest_other);
        assert(all_one =~= seq![one[0]] + (rest_one + after_one));
        assert(all_other =~= seq![other[0]] + (rest_other + after_other));
    }
}

/// What follows the first segments compares as the segments do.
proof fn lemma_order_of_later_bytes(one: Seq<Seq<u8>>, other: Seq<Seq<u8>>)
    requires
        all_plain(one),
        all_plain(other),
    ensures
        bytes_before(later_bytes(one), later_bytes(other)) <==> segments_before(one, other),
        later_bytes(one) == later_bytes(other) <==> one == other,
    decreases one.len(),
{
    let bytes = later_bytes(one);
    let other_bytes = later_bytes(other);
    if one.len() > 0 && other.len() > 0 {
        let rest = one.drop_first();
        let other_rest = other.drop_first();
        assert(forall|i: int| 0 <= i < rest.len() ==> rest[i] == one[i + 1]);
        assert(forall|i: int| 0 <= i < other_rest.len() ==> other_rest[i] == other[i + 1]);
        lemma_order_of_later_bytes(rest, other_rest);
        assert(plain_bytes(one[0]) && plain_bytes(other[0]));
        lemma_before_mark(one[0], other[0], later_bytes(rest), later_bytes(other_rest));
        assert(bytes.drop_first() =~= one[0] + later_bytes(rest));
        assert(other_bytes.drop_first() =~= other[0] + later_bytes(other_rest));
        assert(bytes[0] == other_bytes[0] == JSON_PATH_SEGMENT_SEP);
        assert(bytes =~= seq![JSON_PATH_SEGMENT_SEP] + bytes.drop_first());
        assert(other_bytes =~= seq![JSON_PATH_SEGMENT_SEP] + other_bytes.drop_first());
        assert(one =~= seq![one[0]] + rest);
        assert(other =~= seq![other[0]] + other_rest);
    } else if one.len() == 0 && other.len() == 0 {
        assert(one =~= other);
        assert(!bytes_before(bytes.drop_first(), other_bytes.drop_first()));
    } else {
        assert(bytes[0] != other_bytes[0]);
    }
}

/// The bytes of paths, with their ends marked, compare as their segments do, one segment after
/// the other, and only the same segments have the same bytes. This is so where no segment has
/// one of the marks among its bytes.
pub proof fn lemma_order_of_paths(one: Seq<Seq<char>>, other: Seq<Seq<char>>)
    requires
        one.len() > 0,
        other.len() > 0,
        all_plain(segment_bytes(one)),
        all_plain(segment_bytes(other)),
    ensures
        bytes_before(path_bytes(one), path_bytes(other)) <==> segments_before(
            segment_bytes(one),
            segment_bytes(other),
        ),
        path_bytes(one) == path_bytes(other) <==> one == other,
{
    let bytes = segment_bytes(one);
    let other_bytes = segment_bytes(other);
    let rest = bytes.drop_first();
    let other_rest = other_bytes.drop_first();
    lemma_path_bytes(one);
    lemma_path_bytes(other);
    assert(forall|i: int| 0 <= i < rest.len() ==> rest[i] == bytes[i + 1]);
    assert(forall|i: int| 0 <= i < other_rest.len() ==> other_rest[i] == other_bytes[i + 1]);
    lemma_order_of_later_bytes(rest, other_rest);
    assert(plain_bytes(bytes[0]) && plain_bytes(other_bytes[0]));
    lemma_before_mark(bytes[0], other_bytes[0], later_bytes(rest), later_bytes(other_rest));
    assert(bytes =~= seq![bytes[0]] + rest);
    assert(other_bytes =~= seq![other_bytes[0]] + other_rest);
    if path_bytes(one) == path_bytes(other) {
        assert(bytes == other_bytes);
        assert forall|i: int| 0 <= i < one.len() implies one[i] == other[i] by {
            assert(bytes[i] == other_bytes[i]);
            vstd::utf8::encode_utf8_decode_utf8(one[i]);
            vstd::utf8::encode_utf8_decode_utf8(other[i]);
        }
        assert(one =~= other);
    }
}

impl vstd::std_specs::convert::FromSpecImpl<JsonPathWriter> for String {
    open spec fn obeys_from_spec() -> bool {
        true
    }

    closed spec fn from_spec(writer: JsonPathWriter) -> String {
        writer.path
    }
}

impl From<JsonPathWriter> for String {
    fn from(value: JsonPathWriter) -> (path: Self)
        ensures
            path@ == value@.path,
    {
        value.path
    }
}

} // verus!
