//! The grammars compiled into the program: the four InterSystems ObjectScript variants.

use vstd::prelude::*;

use crate::fingerprint;

verus! {

/// A bundled grammar: its canonical id, the file extensions it owns, and a human
/// description. Its entry point is `tree_sitter_` and the id.
#[derive(Debug)]
pub struct BundledLanguage {
    pub id: &'static str,
    pub extensions: Vec<&'static str>,
    pub description: &'static str,
}

/// What a bundled grammar's entry holds.
#[verifier::ext_equal]
pub struct BundledModel {
    pub id: Seq<char>,
    pub extensions: Seq<Seq<char>>,
    pub description: Seq<char>,
}

impl View for BundledLanguage {
    type V = BundledModel;

    open spec fn view(&self) -> BundledModel {
        BundledModel {
            id: self.id@,
            extensions: fingerprint::slices(self.extensions@),
            description: self.description@,
        }
    }
}

/// The bundled grammars, in family order.
pub open spec fn bundled_models() -> Seq<BundledModel> {
    seq![
        BundledModel {
            id: "objectscript_expr"@,
            extensions: seq![],
            description: "InterSystems ObjectScript — expression grammar (family base)"@,
        },
        BundledModel {
            id: "objectscript_core"@,
            extensions: seq![],
            description: "InterSystems ObjectScript — core statement/line grammar"@,
        },
        BundledModel {
            id: "objectscript_udl"@,
            extensions: seq!["cls"@],
            description: "InterSystems ObjectScript — Class Definition / UDL (.cls)"@,
        },
        BundledModel {
            id: "objectscript_routine"@,
            extensions: seq!["mac"@, "int"@, "inc"@, "rtn"@],
            description: "InterSystems ObjectScript — routine grammar (.mac/.int/.inc/.rtn)"@,
        },
    ]
}

/// All grammars compiled into the program, in family order.
pub fn all() -> (r: Vec<BundledLanguage>)
    ensures
        r@.map_values(|b: BundledLanguage| b@) == bundled_models(),
{
    let mut out: Vec<BundledLanguage> = Vec::new();
    out.push(
        BundledLanguage {
            id: "objectscript_expr",
            extensions: Vec::new(),
            description: "InterSystems ObjectScript — expression grammar (family base)",
        },
    );
    out.push(
        BundledLanguage {
            id: "objectscript_core",
            extensions: Vec::new(),
            description: "InterSystems ObjectScript — core statement/line grammar",
        },
    );
    out.push(
        BundledLanguage {
            id: "objectscript_udl",
            extensions: vec!["cls"],
            description: "InterSystems ObjectScript — Class Definition / UDL (.cls)",
        },
    );
    out.push(
        BundledLanguage {
            id: "objectscript_routine",
            extensions: vec!["mac", "int", "inc", "rtn"],
            description: "InterSystems ObjectScript — routine grammar (.mac/.int/.inc/.rtn)",
        },
    );
    proof {
        let models = out@.map_values(|b: BundledLanguage| b@);
        assert forall|i: int| 0 <= i < 4 implies models[i] == bundled_models()[i] by {
            assert(models[i].extensions =~= bundled_models()[i].extensions);
        }
        assert(models =~= bundled_models());
    }
    out
}

/// Does a bundled grammar claim the extension?
pub open spec fn claims(b: BundledModel, ext: Seq<char>) -> bool {
    b.extensions.contains(ext)
}

/// No two bundled grammars have one id, and no extension is claimed by two of them: classes go to
/// the one for class definitions, and every kind of routine to the one for routines.
pub proof fn lemma_bundled_apart(i: int, j: int, ext: Seq<char>)
    requires
        0 <= i < j < bundled_models().len(),
    ensures
        bundled_models()[i].id != bundled_models()[j].id,
        !(claims(bundled_models()[i], ext) && claims(bundled_models()[j], ext)),
        exists|k: int|
            0 <= k < bundled_models().len() && (#[trigger] bundled_models()[k]).id
                == "objectscript_udl"@ && claims(bundled_models()[k], "cls"@),
        exists|k: int|
            0 <= k < bundled_models().len() && (#[trigger] bundled_models()[k]).id
                == "objectscript_routine"@ && claims(bundled_models()[k], "mac"@) && claims(
                bundled_models()[k],
                "int"@,
            ) && claims(bundled_models()[k], "inc"@) && claims(bundled_models()[k], "rtn"@),
{
    reveal_strlit("objectscript_expr");
    reveal_strlit("objectscript_core");
    reveal_strlit("objectscript_udl");
    reveal_strlit("objectscript_routine");
    reveal_strlit("cls");
    reveal_strlit("mac");
    reveal_strlit("int");
    reveal_strlit("inc");
    reveal_strlit("rtn");
    let all = bundled_models();
    assert("objectscript_expr"@.len() == 17 && "objectscript_core"@.len() == 17);
    assert("objectscript_expr"@[13] == 'e' && "objectscript_core"@[13] == 'c');
    assert("objectscript_udl"@.len() == 16 && "objectscript_routine"@.len() == 20);
    assert("cls"@[0] == 'c' && "mac"@[0] == 'm' && "int"@[0] == 'i' && "inc"@[0] == 'i'
        && "rtn"@[0] == 'r');
    assert(all[0].extensions.len() == 0 && all[1].extensions.len() == 0);
    assert(all[2].extensions[0] == "cls"@);
    assert(all[3].extensions[0] == "mac"@ && all[3].extensions[1] == "int"@ && all[3].extensions[2]
        == "inc"@ && all[3].extensions[3] == "rtn"@);
    assert(all[2].id == "objectscript_udl"@ && all[3].id == "objectscript_routine"@);
    assert(claims(all[2], "cls"@));
    assert(claims(all[3], "mac"@) && claims(all[3], "int"@) && claims(all[3], "inc"@) && claims(
        all[3],
        "rtn"@,
    ));
    if claims(all[2], ext) && claims(all[3], ext) {
        let x = choose|x: int| 0 <= x < all[2].extensions.len() && all[2].extensions[x] == ext;
        let y = choose|y: int| 0 <= y < all[3].extensions.len() && all[3].extensions[y] == ext;
        assert(x == 0);
        assert(ext[0] == 'c');
        assert(y == 0 || y == 1 || y == 2 || y == 3);
    }
}

} // verus!
