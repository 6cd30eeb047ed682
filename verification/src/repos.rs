//! The `core_functions_relation` Pure repository this crate carries: its
//! descriptor and its Pure sources.
use vstd::prelude::*;

verus! {

/// What a repository declares: its name, the package pattern it owns
/// and the repositories it depends on.
#[derive(Debug)]
pub struct RepoMeta {
    pub name: String,
    pub pattern: String,
    pub dependencies: Vec<String>,
}

/// A Pure repository: its descriptor and its sources as
/// `(content, path)`.
#[derive(Debug)]
pub struct Repo {
    pub meta: Option<RepoMeta>,
    pub sources: Vec<(String, String)>,
}

impl Repo {
    /// The descriptor, if the repository carries one.
    pub fn meta(&self) -> (r: Option<&RepoMeta>)
        ensures
            r == match self.meta {
                Some(m) => Some(&m),
                None => None::<&RepoMeta>,
            },
    {
        match &self.meta {
            Some(m) => Some(m),
            None => None,
        }
    }

    /// The sources, as `(content, path)`.
    pub fn sources(&self) -> (r: &Vec<(String, String)>)
        ensures
            r == &self.sources,
    {
        &self.sources
    }
}

/// The repository's dependencies.
pub open spec fn relation_dependencies() -> Seq<Seq<char>> {
    seq![
        "platform"@,
        "platform_dsl_tds"@,
        "platform_precise_primitives"@,
        "core_functions_unclassified"@,
        "core_functions_variant"@,
    ]
}

/// The path of the repository's source of native declarations.
pub open spec fn natives_source_path() -> Seq<char> {
    "/core_functions_relation/relation/natives.pure"@
}

/// The declarations of the relation natives whose bodies this crate
/// implements.
pub open spec fn natives_source() -> Seq<char> {
    "native function rowNumber<T>(rel:Relation<T>[1], row:T[1]):Integer[1];\nnative function rank<T>(rel:Relation<T>[1], w:_Window<T>[1], row:T[1]):Integer[1];\nnative function denseRank<T>(rel:Relation<T>[1], w:_Window<T>[1], row:T[1]):Integer[1];\nnative function percentRank<T>(rel:Relation<T>[1], w:_Window<T>[1], row:T[1]):Float[1];\nnative function cumulativeDistribution<T>(rel:Relation<T>[1], w:_Window<T>[1], row:T[1]):Float[1];\nnative function ntile<T>(rel:Relation<T>[1], row:T[1], tileCount:Integer[1]):Integer[1];\nnative function offset<T>(w:Relation<T>[1], r:T[1], offset:Integer[1]):T[0..1];\nnative function first<T>(w:Relation<T>[1], f:_Window<T>[1], r:T[1]):T[0..1];\nnative function last<T>(w:Relation<T>[1], f:_Window<T>[1], r:T[1]):T[0..1];\nnative function nth<T>(w:Relation<T>[1], f:_Window<T>[1], r:T[1], offset:Integer[1]):T[0..1];\nnative function slice<T>(rel:Relation<T>[1], start:Integer[1], stop:Integer[1]):Relation<T>[1];\nnative function reduce<T, V, U|m>(rel:Relation<T>[1], w:_Window<T>[1], row:T[1], map:Function<{T[1]->V[*]}>[1], agg:Function<{V[*]->U[m]}>[1]):U[m];\nnative function join<T,V>(rel1:Relation<T>[1], rel2:Relation<V>[1], joinKind:JoinKind[1], f:Function<{T[1],V[1]->Boolean[1]}>[1]):Relation<T+V>[1];\n"@
}

/// The embedded repository: `core_functions_relation`, owning the
/// `meta::pure::functions::relation` packages, after its five
/// dependencies, with its source of native declarations.
pub fn repos() -> (r: Vec<Repo>)
    ensures
        r@.len() == 1,
        r@[0].meta is Some,
        r@[0].meta->0.name@ == "core_functions_relation"@,
        r@[0].meta->0.pattern@ == "(meta::pure::functions::relation)(::.*)?"@,
        r@[0].meta->0.dependencies@.len() == relation_dependencies().len(),
        forall|k: int|
            0 <= k < relation_dependencies().len() ==> #[trigger] r@[0].meta->0.dependencies@[k]@
                == relation_dependencies()[k],
        r@[0].sources@.len() == 1,
        r@[0].sources@[0].0@ == natives_source(),
        r@[0].sources@[0].1@ == natives_source_path(),
{
    let mut dependencies: Vec<String> = Vec::new();
    dependencies.push("platform".to_string());
    dependencies.push("platform_dsl_tds".to_string());
    dependencies.push("platform_precise_primitives".to_string());
    dependencies.push("core_functions_unclassified".to_string());
    dependencies.push("core_functions_variant".to_string());
    let meta = RepoMeta {
        name: "core_functions_relation".to_string(),
        pattern: "(meta::pure::functions::relation)(::.*)?".to_string(),
        dependencies,
    };
    let mut sources: Vec<(String, String)> = Vec::new();
    sources.push(
        (
            "native function rowNumber<T>(rel:Relation<T>[1], row:T[1]):Integer[1];\nnative function rank<T>(rel:Relation<T>[1], w:_Window<T>[1], row:T[1]):Integer[1];\nnative function denseRank<T>(rel:Relation<T>[1], w:_Window<T>[1], row:T[1]):Integer[1];\nnative function percentRank<T>(rel:Relation<T>[1], w:_Window<T>[1], row:T[1]):Float[1];\nnative function cumulativeDistribution<T>(rel:Relation<T>[1], w:_Window<T>[1], row:T[1]):Float[1];\nnative function ntile<T>(rel:Relation<T>[1], row:T[1], tileCount:Integer[1]):Integer[1];\nnative function offset<T>(w:Relation<T>[1], r:T[1], offset:Integer[1]):T[0..1];\nnative function first<T>(w:Relation<T>[1], f:_Window<T>[1], r:T[1]):T[0..1];\nnative function last<T>(w:Relation<T>[1], f:_Window<T>[1], r:T[1]):T[0..1];\nnative function nth<T>(w:Relation<T>[1], f:_Window<T>[1], r:T[1], offset:Integer[1]):T[0..1];\nnative function slice<T>(rel:Relation<T>[1], start:Integer[1], stop:Integer[1]):Relation<T>[1];\nnative function reduce<T, V, U|m>(rel:Relation<T>[1], w:_Window<T>[1], row:T[1], map:Function<{T[1]->V[*]}>[1], agg:Function<{V[*]->U[m]}>[1]):U[m];\nnative function join<T,V>(rel1:Relation<T>[1], rel2:Relation<V>[1], joinKind:JoinKind[1], f:Function<{T[1],V[1]->Boolean[1]}>[1]):Relation<T+V>[1];\n".to_string(),
            "/core_functions_relation/relation/natives.pure".to_string(),
        ),
    );
    let mut out: Vec<Repo> = Vec::new();
    out.push(Repo { meta: Some(meta), sources });
    out
}

} // verus!
