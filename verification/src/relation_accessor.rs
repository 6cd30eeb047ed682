//! The relation accessor island `#>{db.schema.table}#`: its content is a
//! dot-separated path.
use vstd::prelude::*;

use crate::ast::{ClassInstance, IslandData, RelationAccessorData, SourceInfo};
use crate::lexer::{chars_of, string_of};
use crate::parser::{IslandPlugin, ParseError};
use crate::text::join_spec;

verus! {

/// `s` split at every `sep`: the pieces between separators, in order
/// (one empty piece for an empty text).
pub open spec fn split_on(s: Seq<char>, sep: char) -> Seq<Seq<char>>
    decreases s.len(),
{
    if s.len() == 0 {
        seq![Seq::empty()]
    } else {
        let prev = split_on(s.drop_last(), sep);
        if s.last() == sep {
            prev.push(Seq::empty())
        } else {
            prev.update(prev.len() - 1, prev.last().push(s.last()))
        }
    }
}

proof fn lemma_split_nonempty(s: Seq<char>, sep: char)
    ensures
        split_on(s, sep).len() >= 1,
    decreases s.len(),
{
    if s.len() > 0 {
        lemma_split_nonempty(s.drop_last(), sep);
    }
}

/// Putting the last piece back together with one more character.
proof fn lemma_join_extend_last(p: Seq<Seq<char>>, sep: char, c: char)
    requires
        p.len() >= 1,
    ensures
        join_spec(p.update(p.len() - 1, p.last().push(c)), seq![sep]) == join_spec(p, seq![sep]).push(c),
{
    let q = p.update(p.len() - 1, p.last().push(c));
    if p.len() >= 2 {
        assert(q.drop_last() =~= p.drop_last());
        assert(join_spec(q, seq![sep]) =~= join_spec(p, seq![sep]).push(c));
    }
}

/// The path of a relation accessor, joined with `.`, gives back the
/// island's content, and no piece of it holds a `.`.
pub proof fn lemma_path_round_trip(s: Seq<char>)
    ensures
        join_spec(split_on(s, '.'), seq!['.']) == s,
        forall|k: int| 0 <= k < split_on(s, '.').len() ==> !(#[trigger] split_on(s, '.')[k]).contains('.'),
    decreases s.len(),
{
    lemma_split_nonempty(s, '.');
    if s.len() == 0 {
        assert(split_on(s, '.')[0] =~= Seq::<char>::empty());
    } else {
        let prev = split_on(s.drop_last(), '.');
        lemma_path_round_trip(s.drop_last());
        lemma_split_nonempty(s.drop_last(), '.');
        if s.last() == '.' {
            let cur = prev.push(Seq::empty());
            assert(cur.drop_last() =~= prev);
            assert(join_spec(cur, seq!['.']) =~= s);
            assert forall|k: int| 0 <= k < cur.len() implies !(#[trigger] cur[k]).contains('.') by {
                if k < prev.len() {
                    assert(cur[k] == prev[k]);
                }
            }
        } else {
            lemma_join_extend_last(prev, '.', s.last());
            assert(join_spec(prev, seq!['.']).push(s.last()) =~= s);
            let cur = prev.update(prev.len() - 1, prev.last().push(s.last()));
            assert forall|k: int| 0 <= k < cur.len() implies !(#[trigger] cur[k]).contains('.') by {
                if k < prev.len() - 1 {
                    assert(cur[k] == prev[k]);
                } else {
                    let last = prev.last();
                    assert(!prev[prev.len() - 1].contains('.'));
                    if cur[k].contains('.') {
                        let w = choose|w: int| 0 <= w < cur[k].len() && cur[k][w] == '.';
                        if w < last.len() {
                            assert(last[w] == '.');
                            assert(last.contains('.'));
                        }
                    }
                }
            }
        }
    }
}

/// The island plugin for relation accessors.
#[derive(Debug)]
pub struct RelationAccessorPlugin;

impl IslandPlugin for RelationAccessorPlugin {
    open spec fn island_text(&self) -> Seq<char> {
        ">"@
    }

    /// The island type this plugin parses: `>` (as in `#>{...}#`).
    fn island_type(&self) -> (r: &str)
        ensures
            r@ == ">"@,
    {
        ">"
    }

    /// A `relationAccessor` instance whose path is `content` split at
    /// every `.`, at `source_info`.
    fn parse(&self, content: &str, source_info: SourceInfo) -> (r: Result<ClassInstance, ParseError>)
        ensures
            r is Ok,
            r->Ok_0.instance_type@ == "relationAccessor"@,
            r->Ok_0.source_info == source_info,
            r->Ok_0.data matches IslandData::RelationAccessor(d) && d.path@.len() == split_on(content@, '.').len()
                && forall|k: int| 0 <= k < d.path@.len() ==> #[trigger] d.path@[k]@ == split_on(content@, '.')[k],
    {
        let cs = chars_of(content);
        let mut pieces: Vec<String> = Vec::new();
        let mut current: Vec<char> = Vec::new();
        let mut i: usize = 0;
        while i < cs.len()
            invariant
                cs@ == content@,
                i <= cs@.len(),
                pieces@.len() + 1 == split_on(cs@.take(i as int), '.').len(),
                forall|k: int| 0 <= k < pieces@.len() ==> #[trigger] pieces@[k]@ == split_on(cs@.take(i as int), '.')[k],
                current@ == split_on(cs@.take(i as int), '.').last(),
            decreases cs.len() - i,
        {
            proof {
                assert(cs@.take(i + 1).drop_last() =~= cs@.take(i as int));
                lemma_split_nonempty(cs@.take(i as int), '.');
            }
            if cs[i] == '.' {
                let piece = string_of(current);
                pieces.push(piece);
                current = Vec::new();
                proof {
                    assert(current@ =~= Seq::<char>::empty());
                }
            } else {
                current.push(cs[i]);
            }
            i = i + 1;
        }
        proof {
            assert(cs@.take(cs@.len() as int) =~= cs@);
        }
        let last = string_of(current);
        pieces.push(last);
        Ok(
            ClassInstance {
                instance_type: "relationAccessor".to_string(),
                data: IslandData::RelationAccessor(RelationAccessorData { path: pieces }),
                source_info,
            },
        )
    }
}

} // verus!
