use vstd::prelude::*;

use crate::text::{decimal, lemma_trim_fixed, push_decimal, push_str, string_of, trim, trim_str};

verus! {

/// Why faces, cubes or a cube set's name were refused.
#[derive(Debug, Clone, Copy, PartialEq, Eq, Structural)]
pub enum CubeSetError {
    /// The set's name is empty once trimmed.
    EmptyName,
    /// The set has no cubes.
    NoCubes,
    /// A cube has no faces.
    CubeHasNoFaces,
    /// The face at `index` is empty once trimmed.
    EmptyFace { index: usize },
}

/// The message that describes an error.
pub open spec fn cube_error_message(e: CubeSetError) -> Seq<char> {
    match e {
        CubeSetError::EmptyName => "cube set name cannot be empty"@,
        CubeSetError::NoCubes => "cube set must contain at least one cube"@,
        CubeSetError::CubeHasNoFaces => "cube must contain at least one face"@,
        CubeSetError::EmptyFace { index } => "cube face "@ + decimal(index as nat)
            + " cannot be empty"@,
    }
}

impl CubeSetError {
    /// The message that describes this error.
    pub fn message(&self) -> (r: String)
        ensures
            r@ == cube_error_message(*self),
    {
        match self {
            CubeSetError::EmptyName => String::from_str("cube set name cannot be empty"),
            CubeSetError::NoCubes => String::from_str("cube set must contain at least one cube"),
            CubeSetError::CubeHasNoFaces => String::from_str("cube must contain at least one face"),
            CubeSetError::EmptyFace { index } => {
                let mut s = String::from_str("cube face ");
                push_decimal(&mut s, *index);
                push_str(&mut s, " cannot be empty");
                s
            },
        }
    }
}

/// What building a cube from raw faces gives: the trimmed faces, or the first error.
pub open spec fn cube_outcome(raw: Seq<Seq<char>>) -> Result<Seq<Seq<char>>, CubeSetError> {
    if raw.len() == 0 {
        Err(CubeSetError::CubeHasNoFaces)
    } else if exists|i: int| 0 <= i < raw.len() && trim(#[trigger] raw[i]).len() == 0 {
        let i = choose|i: int|
            0 <= i < raw.len() && trim(#[trigger] raw[i]).len() == 0 && forall|j: int|
                0 <= j < i ==> trim(#[trigger] raw[j]).len() > 0;
        Err(CubeSetError::EmptyFace { index: i as usize })
    } else {
        Ok(raw.map_values(|f: Seq<char>| trim(f)))
    }
}

/// A letter cube: one or more faces, each trimmed and not empty.
#[derive(Debug, PartialEq, Eq)]
pub struct Cube {
    faces: Vec<String>,
}

impl Cube {
    /// The faces, in order.
    pub closed spec fn face_seq(&self) -> Seq<Seq<char>> {
        self.faces@.map_values(|f: String| f@)
    }

    #[verifier::type_invariant]
    pub closed spec fn faces_ok(&self) -> bool {
        &&& self.faces.len() > 0
        &&& forall|i: int| 0 <= i < self.faces.len() ==> (#[trigger] self.faces@[i])@.len() > 0
        &&& forall|i: int| 0 <= i < self.faces.len() ==> trim((#[trigger] self.faces@[i])@) == self.faces@[i]@
    }

    /// What the invariant says, over the public view.
    pub proof fn lemma_faces(&self)
        requires
            self.faces_ok(),
        ensures
            self.face_seq().len() > 0,
            forall|i: int| 0 <= i < self.face_seq().len() ==> (#[trigger] self.face_seq()[i]).len() > 0,
            forall|i: int| 0 <= i < self.face_seq().len() ==> trim(#[trigger] self.face_seq()[i]) == self.face_seq()[i],
    {
        assert forall|i: int| 0 <= i < self.face_seq().len() implies (#[trigger] self.face_seq()[i]).len() > 0
            && trim(self.face_seq()[i]) == self.face_seq()[i] by {
            assert(self.face_seq()[i] == self.faces@[i]@);
        }
    }

    /// A cube with the given faces, each trimmed; refused when there is no face or a face
    /// is empty once trimmed (the first such face is named).
    pub fn new(faces: &[&str]) -> (r: Result<Cube, CubeSetError>)
        ensures
            match r {
                Ok(c) => cube_outcome(faces@.map_values(|f: &str| f@)) == Ok::<Seq<Seq<char>>, CubeSetError>(c.face_seq()),
                Err(e) => cube_outcome(faces@.map_values(|f: &str| f@)) == Err::<Seq<Seq<char>>, CubeSetError>(e),
            },
    {
        let ghost raw = faces@.map_values(|f: &str| f@);
        let mut trimmed: Vec<Vec<char>> = Vec::new();
        let mut i: usize = 0;
        while i < faces.len()
            invariant
                raw == faces@.map_values(|f: &str| f@),
                i <= faces.len(),
                trimmed.len() == i,
                forall|k: int| 0 <= k < i ==> (#[trigger] trimmed@[k])@ == trim(raw[k]),
            decreases faces.len() - i,
        {
            trimmed.push(trim_str(faces[i]));
            i += 1;
        }
        if faces.len() == 0 {
            return Err(CubeSetError::CubeHasNoFaces);
        }
        let mut result: Vec<String> = Vec::new();
        let mut k: usize = 0;
        while k < trimmed.len()
            invariant
                raw == faces@.map_values(|f: &str| f@),
                trimmed.len() == faces.len(),
                forall|j: int| 0 <= j < trimmed.len() ==> (#[trigger] trimmed@[j])@ == trim(raw[j]),
                k <= trimmed.len(),
                result.len() == k,
                forall|j: int| 0 <= j < k ==> trim(#[trigger] raw[j]).len() > 0,
                forall|j: int| 0 <= j < k ==> (#[trigger] result@[j])@ == trim(raw[j]),
                forall|j: int| 0 <= j < k ==> trim((#[trigger] result@[j])@) == result@[j]@,
            decreases trimmed.len() - k,
        {
            if trimmed[k].len() == 0 {
                proof {
                    assert(trim(raw[k as int]).len() == 0);
                    let i = choose|i: int|
                        0 <= i < raw.len() && trim(#[trigger] raw[i]).len() == 0 && forall|j: int|
                            0 <= j < i ==> trim(#[trigger] raw[j]).len() > 0;
                    if i < k {
                    } else if i > k {
                        assert(trim(raw[k as int]).len() > 0);
                    }
                }
                return Err(CubeSetError::EmptyFace { index: k });
            }
            result.push(string_of(trimmed[k].as_slice()));
            proof {
                crate::text::lemma_trim_idempotent(raw[k as int]);
            }
            k += 1;
        }
        let cube = Cube { faces: result };
        assert(cube.face_seq() =~= raw.map_values(|f: Seq<char>| trim(f)));
        Ok(cube)
    }

    /// The faces, in order.
    pub fn faces(&self) -> (r: &[String])
        ensures
            r@.map_values(|f: String| f@) == self.face_seq(),
    {
        self.faces.as_slice()
    }

    /// A built-in cube whose six faces are already trimmed and not empty.
    fn builtin(faces: [&'static str; 6]) -> (c: Cube)
        requires
            forall|i: int| 0 <= i < 6 ==> trim((#[trigger] faces@[i])@) == faces@[i]@ && faces@[i]@.len() > 0,
        ensures
            c.face_seq() == faces@.map_values(|f: &str| f@),
    {
        let r = Cube::new(&faces);
        proof {
            let raw = faces@.map_values(|f: &str| f@);
            assert forall|i: int| 0 <= i < raw.len() implies trim(#[trigger] raw[i]).len() > 0 by {
                assert(raw[i] == faces@[i]@);
            }
            assert(raw.map_values(|f: Seq<char>| trim(f)) =~= raw);
        }
        match r {
            Ok(c) => c,
            Err(_) => {
                vstd::pervasive::unreached()
            },
        }
    }
}

impl Clone for Cube {
    fn clone(&self) -> (r: Self)
        ensures
            r.face_seq() == self.face_seq(),
    {
        proof {
            use_type_invariant(self);
        }
        let faces = self.faces.clone();
        proof {
            assert forall|i: int| 0 <= i < faces.len() implies faces@[i] == self.faces@[i] by {
                assert(cloned::<String>(self.faces[i], faces[i]));
            }
            assert(faces@ =~= self.faces@);
        }
        Cube { faces }
    }
}

/// A named set of cubes; the name is trimmed and not empty, and there is at least one cube.
#[derive(Debug, PartialEq, Eq)]
pub struct CubeSet {
    name: String,
    cubes: Vec<Cube>,
}

/// The faces of each cube of a list.
pub open spec fn cube_faces(cubes: Seq<Cube>) -> Seq<Seq<Seq<char>>> {
    cubes.map_values(|c: Cube| c.face_seq())
}

impl CubeSet {
    /// The name.
    pub closed spec fn name_view(&self) -> Seq<char> {
        self.name@
    }

    /// The cubes, in order.
    pub closed spec fn cube_seq(&self) -> Seq<Cube> {
        self.cubes@
    }

    #[verifier::type_invariant]
    pub closed spec fn set_ok(&self) -> bool {
        &&& self.name@.len() > 0
        &&& self.cubes.len() > 0
    }

    /// A set of the given cubes under the trimmed name; refused when the name is empty once
    /// trimmed, or when there is no cube.
    pub fn new(name: &str, cubes: Vec<Cube>) -> (r: Result<CubeSet, CubeSetError>)
        ensures
            trim(name@).len() == 0 ==> r == Err::<CubeSet, CubeSetError>(CubeSetError::EmptyName),
            trim(name@).len() > 0 && cubes.len() == 0 ==> r == Err::<CubeSet, CubeSetError>(CubeSetError::NoCubes),
            trim(name@).len() > 0 && cubes.len() > 0 ==> (r matches Ok(s) && s.name_view() == trim(
                name@,
            ) && s.cube_seq() == cubes@),
    {
        let trimmed = trim_str(name);
        if trimmed.len() == 0 {
            return Err(CubeSetError::EmptyName);
        }
        if cubes.len() == 0 {
            return Err(CubeSetError::NoCubes);
        }
        Ok(CubeSet { name: string_of(trimmed.as_slice()), cubes })
    }

    /// The name.
    pub fn name(&self) -> (r: &str)
        ensures
            r@ == self.name_view(),
    {
        self.name.as_str()
    }

    /// The cubes, in order.
    pub fn cubes(&self) -> (r: &[Cube])
        ensures
            r@ == self.cube_seq(),
    {
        self.cubes.as_slice()
    }

    /// The built-in "Standard New" set.
    pub fn standard_new() -> (s: CubeSet)
        ensures
            s.name_view() == "Standard New"@,
            cube_faces(s.cube_seq()) == standard_new_faces(),
    {
        proof {
            reveal_strlit("A");
            lemma_trim_fixed("A"@);
            reveal_strlit("B");
            lemma_trim_fixed("B"@);
            reveal_strlit("C");
            lemma_trim_fixed("C"@);
            reveal_strlit("D");
            lemma_trim_fixed("D"@);
            reveal_strlit("E");
            lemma_trim_fixed("E"@);
            reveal_strlit("F");
            lemma_trim_fixed("F"@);
            reveal_strlit("G");
            lemma_trim_fixed("G"@);
            reveal_strlit("H");
            lemma_trim_fixed("H"@);
            reveal_strlit("I");
            lemma_trim_fixed("I"@);
            reveal_strlit("J");
            lemma_trim_fixed("J"@);
            reveal_strlit("K");
            lemma_trim_fixed("K"@);
            reveal_strlit("L");
            lemma_trim_fixed("L"@);
            reveal_strlit("M");
            lemma_trim_fixed("M"@);
            reveal_strlit("N");
            lemma_trim_fixed("N"@);
            reveal_strlit("O");
            lemma_trim_fixed("O"@);
            reveal_strlit("P");
            lemma_trim_fixed("P"@);
            reveal_strlit("Qu");
            lemma_trim_fixed("Qu"@);
            reveal_strlit("R");
            lemma_trim_fixed("R"@);
            reveal_strlit("S");
            lemma_trim_fixed("S"@);
            reveal_strlit("T");
            lemma_trim_fixed("T"@);
            reveal_strlit("U");
            lemma_trim_fixed("U"@);
            reveal_strlit("V");
            lemma_trim_fixed("V"@);
            reveal_strlit("W");
            lemma_trim_fixed("W"@);
            reveal_strlit("X");
            lemma_trim_fixed("X"@);
            reveal_strlit("Y");
            lemma_trim_fixed("Y"@);
            reveal_strlit("Z");
            lemma_trim_fixed("Z"@);
        }
        let mut cubes: Vec<Cube> = Vec::new();
        cubes.push(Cube::builtin(["A", "E", "A", "N", "E", "G"]));
        cubes.push(Cube::builtin(["A", "H", "S", "P", "C", "O"]));
        cubes.push(Cube::builtin(["A", "S", "P", "F", "F", "K"]));
        cubes.push(Cube::builtin(["O", "B", "J", "O", "A", "B"]));
        cubes.push(Cube::builtin(["I", "O", "T", "M", "U", "C"]));
        cubes.push(Cube::builtin(["R", "Y", "V", "D", "E", "L"]));
        cubes.push(Cube::builtin(["L", "R", "E", "I", "X", "D"]));
        cubes.push(Cube::builtin(["E", "I", "U", "N", "E", "S"]));
        cubes.push(Cube::builtin(["W", "N", "G", "E", "E", "H"]));
        cubes.push(Cube::builtin(["L", "N", "H", "N", "R", "Z"]));
        cubes.push(Cube::builtin(["T", "S", "T", "I", "Y", "D"]));
        cubes.push(Cube::builtin(["O", "W", "T", "O", "A", "T"]));
        cubes.push(Cube::builtin(["E", "R", "T", "T", "Y", "L"]));
        cubes.push(Cube::builtin(["T", "O", "E", "S", "S", "I"]));
        cubes.push(Cube::builtin(["T", "E", "R", "W", "H", "V"]));
        cubes.push(Cube::builtin(["N", "U", "I", "H", "M", "Qu"]));
        proof {
            reveal_strlit("Standard New");
            lemma_trim_fixed("Standard New"@);
            assert(cube_faces(cubes@)[0] =~= seq!["A"@, "E"@, "A"@, "N"@, "E"@, "G"@]);
            assert(cube_faces(cubes@)[1] =~= seq!["A"@, "H"@, "S"@, "P"@, "C"@, "O"@]);
            assert(cube_faces(cubes@)[2] =~= seq!["A"@, "S"@, "P"@, "F"@, "F"@, "K"@]);
            assert(cube_faces(cubes@)[3] =~= seq!["O"@, "B"@, "J"@, "O"@, "A"@, "B"@]);
            assert(cube_faces(cubes@)[4] =~= seq!["I"@, "O"@, "T"@, "M"@, "U"@, "C"@]);
            assert(cube_faces(cubes@)[5] =~= seq!["R"@, "Y"@, "V"@, "D"@, "E"@, "L"@]);
            assert(cube_faces(cubes@)[6] =~= seq!["L"@, "R"@, "E"@, "I"@, "X"@, "D"@]);
            assert(cube_faces(cubes@)[7] =~= seq!["E"@, "I"@, "U"@, "N"@, "E"@, "S"@]);
            assert(cube_faces(cubes@)[8] =~= seq!["W"@, "N"@, "G"@, "E"@, "E"@, "H"@]);
            assert(cube_faces(cubes@)[9] =~= seq!["L"@, "N"@, "H"@, "N"@, "R"@, "Z"@]);
            assert(cube_faces(cubes@)[10] =~= seq!["T"@, "S"@, "T"@, "I"@, "Y"@, "D"@]);
            assert(cube_faces(cubes@)[11] =~= seq!["O"@, "W"@, "T"@, "O"@, "A"@, "T"@]);
            assert(cube_faces(cubes@)[12] =~= seq!["E"@, "R"@, "T"@, "T"@, "Y"@, "L"@]);
            assert(cube_faces(cubes@)[13] =~= seq!["T"@, "O"@, "E"@, "S"@, "S"@, "I"@]);
            assert(cube_faces(cubes@)[14] =~= seq!["T"@, "E"@, "R"@, "W"@, "H"@, "V"@]);
            assert(cube_faces(cubes@)[15] =~= seq!["N"@, "U"@, "I"@, "H"@, "M"@, "Qu"@]);
            assert(cube_faces(cubes@) =~= standard_new_faces());
        }
        match CubeSet::new("Standard New", cubes) {
            Ok(s) => s,
            Err(_) => {
                vstd::pervasive::unreached()
            },
        }
    }

    /// The built-in "Standard Old" set.
    pub fn standard_old() -> (s: CubeSet)
        ensures
            s.name_view() == "Standard Old"@,
            cube_faces(s.cube_seq()) == standard_old_faces(),
    {
        proof {
            reveal_strlit("A");
            lemma_trim_fixed("A"@);
            reveal_strlit("B");
            lemma_trim_fixed("B"@);
            reveal_strlit("C");
            lemma_trim_fixed("C"@);
            reveal_strlit("D");
            lemma_trim_fixed("D"@);
            reveal_strlit("E");
            lemma_trim_fixed("E"@);
            reveal_strlit("F");
            lemma_trim_fixed("F"@);
            reveal_strlit("G");
            lemma_trim_fixed("G"@);
            reveal_strlit("H");
            lemma_trim_fixed("H"@);
            reveal_strlit("I");
            lemma_trim_fixed("I"@);
            reveal_strlit("J");
            lemma_trim_fixed("J"@);
            reveal_strlit("K");
            lemma_trim_fixed("K"@);
            reveal_strlit("L");
            lemma_trim_fixed("L"@);
            reveal_strlit("M");
            lemma_trim_fixed("M"@);
            reveal_strlit("N");
            lemma_trim_fixed("N"@);
            reveal_strlit("O");
            lemma_trim_fixed("O"@);
            reveal_strlit("P");
            lemma_trim_fixed("P"@);
            reveal_strlit("Qu");
            lemma_trim_fixed("Qu"@);
            reveal_strlit("R");
            lemma_trim_fixed("R"@);
            reveal_strlit("S");
            lemma_trim_fixed("S"@);
            reveal_strlit("T");
            lemma_trim_fixed("T"@);
            reveal_strlit("U");
            lemma_trim_fixed("U"@);
            reveal_strlit("V");
            lemma_trim_fixed("V"@);
            reveal_strlit("W");
            lemma_trim_fixed("W"@);
            reveal_strlit("X");
            lemma_trim_fixed("X"@);
            reveal_strlit("Y");
            lemma_trim_fixed("Y"@);
            reveal_strlit("Z");
            lemma_trim_fixed("Z"@);
        }
        let mut cubes: Vec<Cube> = Vec::new();
        cubes.push(Cube::builtin(["A", "A", "C", "I", "O", "T"]));
        cubes.push(Cube::builtin(["A", "B", "I", "L", "T", "Y"]));
        cubes.push(Cube::builtin(["A", "B", "J", "M", "O", "Qu"]));
        cubes.push(Cube::builtin(["A", "C", "D", "E", "M", "P"]));
        cubes.push(Cube::builtin(["A", "C", "E", "L", "R", "S"]));
        cubes.push(Cube::builtin(["A", "D", "E", "N", "V", "Z"]));
        cubes.push(Cube::builtin(["A", "H", "M", "O", "R", "S"]));
        cubes.push(Cube::builtin(["B", "I", "F", "O", "R", "X"]));
        cubes.push(Cube::builtin(["D", "E", "N", "O", "S", "W"]));
        cubes.push(Cube::builtin(["D", "K", "N", "O", "T", "U"]));
        cubes.push(Cube::builtin(["E", "E", "F", "H", "I", "Y"]));
        cubes.push(Cube::builtin(["E", "G", "K", "L", "U", "Y"]));
        cubes.push(Cube::builtin(["E", "G", "I", "N", "T", "V"]));
        cubes.push(Cube::builtin(["E", "H", "I", "N", "P", "S"]));
        cubes.push(Cube::builtin(["E", "L", "P", "S", "T", "U"]));
        cubes.push(Cube::builtin(["G", "I", "L", "R", "U", "W"]));
        proof {
            reveal_strlit("Standard Old");
            lemma_trim_fixed("Standard Old"@);
            assert(cube_faces(cubes@)[0] =~= seq!["A"@, "A"@, "C"@, "I"@, "O"@, "T"@]);
            assert(cube_faces(cubes@)[1] =~= seq!["A"@, "B"@, "I"@, "L"@, "T"@, "Y"@]);
            assert(cube_faces(cubes@)[2] =~= seq!["A"@, "B"@, "J"@, "M"@, "O"@, "Qu"@]);
            assert(cube_faces(cubes@)[3] =~= seq!["A"@, "C"@, "D"@, "E"@, "M"@, "P"@]);
            assert(cube_faces(cubes@)[4] =~= seq!["A"@, "C"@, "E"@, "L"@, "R"@, "S"@]);
            assert(cube_faces(cubes@)[5] =~= seq!["A"@, "D"@, "E"@, "N"@, "V"@, "Z"@]);
            assert(cube_faces(cubes@)[6] =~= seq!["A"@, "H"@, "M"@, "O"@, "R"@, "S"@]);
            assert(cube_faces(cubes@)[7] =~= seq!["B"@, "I"@, "F"@, "O"@, "R"@, "X"@]);
            assert(cube_faces(cubes@)[8] =~= seq!["D"@, "E"@, "N"@, "O"@, "S"@, "W"@]);
            assert(cube_faces(cubes@)[9] =~= seq!["D"@, "K"@, "N"@, "O"@, "T"@, "U"@]);
            assert(cube_faces(cubes@)[10] =~= seq!["E"@, "E"@, "F"@, "H"@, "I"@, "Y"@]);
            assert(cube_faces(cubes@)[11] =~= seq!["E"@, "G"@, "K"@, "L"@, "U"@, "Y"@]);
            assert(cube_faces(cubes@)[12] =~= seq!["E"@, "G"@, "I"@, "N"@, "T"@, "V"@]);
            assert(cube_faces(cubes@)[13] =~= seq!["E"@, "H"@, "I"@, "N"@, "P"@, "S"@]);
            assert(cube_faces(cubes@)[14] =~= seq!["E"@, "L"@, "P"@, "S"@, "T"@, "U"@]);
            assert(cube_faces(cubes@)[15] =~= seq!["G"@, "I"@, "L"@, "R"@, "U"@, "W"@]);
            assert(cube_faces(cubes@) =~= standard_old_faces());
        }
        match CubeSet::new("Standard Old", cubes) {
            Ok(s) => s,
            Err(_) => {
                vstd::pervasive::unreached()
            },
        }
    }

    /// The built-in "Big" set.
    pub fn big() -> (s: CubeSet)
        ensures
            s.name_view() == "Big"@,
            cube_faces(s.cube_seq()) == big_faces(),
    {
        proof {
            reveal_strlit("A");
            lemma_trim_fixed("A"@);
            reveal_strlit("B");
            lemma_trim_fixed("B"@);
            reveal_strlit("C");
            lemma_trim_fixed("C"@);
            reveal_strlit("D");
            lemma_trim_fixed("D"@);
            reveal_strlit("E");
            lemma_trim_fixed("E"@);
            reveal_strlit("F");
            lemma_trim_fixed("F"@);
            reveal_strlit("G");
            lemma_trim_fixed("G"@);
            reveal_strlit("H");
            lemma_trim_fixed("H"@);
            reveal_strlit("I");
            lemma_trim_fixed("I"@);
            reveal_strlit("J");
            lemma_trim_fixed("J"@);
            reveal_strlit("K");
            lemma_trim_fixed("K"@);
            reveal_strlit("L");
            lemma_trim_fixed("L"@);
            reveal_strlit("M");
            lemma_trim_fixed("M"@);
            reveal_strlit("N");
            lemma_trim_fixed("N"@);
            reveal_strlit("O");
            lemma_trim_fixed("O"@);
            reveal_strlit("P");
            lemma_trim_fixed("P"@);
            reveal_strlit("Q");
            lemma_trim_fixed("Q"@);
            reveal_strlit("R");
            lemma_trim_fixed("R"@);
            reveal_strlit("S");
            lemma_trim_fixed("S"@);
            reveal_strlit("T");
            lemma_trim_fixed("T"@);
            reveal_strlit("U");
            lemma_trim_fixed("U"@);
            reveal_strlit("V");
            lemma_trim_fixed("V"@);
            reveal_strlit("W");
            lemma_trim_fixed("W"@);
            reveal_strlit("X");
            lemma_trim_fixed("X"@);
            reveal_strlit("Y");
            lemma_trim_fixed("Y"@);
            reveal_strlit("Z");
            lemma_trim_fixed("Z"@);
        }
        let mut cubes: Vec<Cube> = Vec::new();
        cubes.push(Cube::builtin(["A", "A", "A", "F", "R", "S"]));
        cubes.push(Cube::builtin(["A", "A", "E", "E", "E", "E"]));
        cubes.push(Cube::builtin(["A", "A", "F", "I", "R", "S"]));
        cubes.push(Cube::builtin(["A", "D", "E", "N", "N", "N"]));
        cubes.push(Cube::builtin(["A", "E", "E", "E", "E", "M"]));
        cubes.push(Cube::builtin(["A", "E", "E", "G", "M", "U"]));
        cubes.push(Cube::builtin(["A", "E", "G", "M", "N", "N"]));
        cubes.push(Cube::builtin(["A", "F", "I", "R", "S", "Y"]));
        cubes.push(Cube::builtin(["B", "J", "K", "Q", "X", "Z"]));
        cubes.push(Cube::builtin(["C", "C", "E", "N", "S", "T"]));
        cubes.push(Cube::builtin(["C", "E", "I", "I", "L", "T"]));
        cubes.push(Cube::builtin(["C", "E", "I", "L", "P", "T"]));
        cubes.push(Cube::builtin(["C", "E", "I", "P", "S", "T"]));
        cubes.push(Cube::builtin(["D", "D", "H", "N", "O", "T"]));
        cubes.push(Cube::builtin(["D", "H", "H", "L", "O", "R"]));
        cubes.push(Cube::builtin(["D", "H", "L", "N", "O", "R"]));
        cubes.push(Cube::builtin(["D", "H", "L", "N", "O", "R"]));
        cubes.push(Cube::builtin(["E", "I", "I", "I", "T", "T"]));
        cubes.push(Cube::builtin(["E", "M", "O", "T", "T", "T"]));
        cubes.push(Cube::builtin(["E", "N", "S", "S", "S", "U"]));
        cubes.push(Cube::builtin(["F", "I", "P", "R", "S", "Y"]));
        cubes.push(Cube::builtin(["G", "O", "R", "R", "V", "W"]));
        cubes.push(Cube::builtin(["I", "P", "R", "R", "R", "Y"]));
        cubes.push(Cube::builtin(["N", "O", "O", "T", "U", "W"]));
        cubes.push(Cube::builtin(["O", "O", "O", "T", "T", "U"]));
        proof {
            reveal_strlit("Big");
            lemma_trim_fixed("Big"@);
            assert(cube_faces(cubes@)[0] =~= seq!["A"@, "A"@, "A"@, "F"@, "R"@, "S"@]);
            assert(cube_faces(cubes@)[1] =~= seq!["A"@, "A"@, "E"@, "E"@, "E"@, "E"@]);
            assert(cube_faces(cubes@)[2] =~= seq!["A"@, "A"@, "F"@, "I"@, "R"@, "S"@]);
            assert(cube_faces(cubes@)[3] =~= seq!["A"@, "D"@, "E"@, "N"@, "N"@, "N"@]);
            assert(cube_faces(cubes@)[4] =~= seq!["A"@, "E"@, "E"@, "E"@, "E"@, "M"@]);
            assert(cube_faces(cubes@)[5] =~= seq!["A"@, "E"@, "E"@, "G"@, "M"@, "U"@]);
            assert(cube_faces(cubes@)[6] =~= seq!["A"@, "E"@, "G"@, "M"@, "N"@, "N"@]);
            assert(cube_faces(cubes@)[7] =~= seq!["A"@, "F"@, "I"@, "R"@, "S"@, "Y"@]);
            assert(cube_faces(cubes@)[8] =~= seq!["B"@, "J"@, "K"@, "Q"@, "X"@, "Z"@]);
            assert(cube_faces(cubes@)[9] =~= seq!["C"@, "C"@, "E"@, "N"@, "S"@, "T"@]);
            assert(cube_faces(cubes@)[10] =~= seq!["C"@, "E"@, "I"@, "I"@, "L"@, "T"@]);
            assert(cube_faces(cubes@)[11] =~= seq!["C"@, "E"@, "I"@, "L"@, "P"@, "T"@]);
            assert(cube_faces(cubes@)[12] =~= seq!["C"@, "E"@, "I"@, "P"@, "S"@, "T"@]);
            assert(cube_faces(cubes@)[13] =~= seq!["D"@, "D"@, "H"@, "N"@, "O"@, "T"@]);
            assert(cube_faces(cubes@)[14] =~= seq!["D"@, "H"@, "H"@, "L"@, "O"@, "R"@]);
            assert(cube_faces(cubes@)[15] =~= seq!["D"@, "H"@, "L"@, "N"@, "O"@, "R"@]);
            assert(cube_faces(cubes@)[16] =~= seq!["D"@, "H"@, "L"@, "N"@, "O"@, "R"@]);
            assert(cube_faces(cubes@)[17] =~= seq!["E"@, "I"@, "I"@, "I"@, "T"@, "T"@]);
            assert(cube_faces(cubes@)[18] =~= seq!["E"@, "M"@, "O"@, "T"@, "T"@, "T"@]);
            assert(cube_faces(cubes@)[19] =~= seq!["E"@, "N"@, "S"@, "S"@, "S"@, "U"@]);
            assert(cube_faces(cubes@)[20] =~= seq!["F"@, "I"@, "P"@, "R"@, "S"@, "Y"@]);
            assert(cube_faces(cubes@)[21] =~= seq!["G"@, "O"@, "R"@, "R"@, "V"@, "W"@]);
            assert(cube_faces(cubes@)[22] =~= seq!["I"@, "P"@, "R"@, "R"@, "R"@, "Y"@]);
            assert(cube_faces(cubes@)[23] =~= seq!["N"@, "O"@, "O"@, "T"@, "U"@, "W"@]);
            assert(cube_faces(cubes@)[24] =~= seq!["O"@, "O"@, "O"@, "T"@, "T"@, "U"@]);
            assert(cube_faces(cubes@) =~= big_faces());
        }
        match CubeSet::new("Big", cubes) {
            Ok(s) => s,
            Err(_) => {
                vstd::pervasive::unreached()
            },
        }
    }
}

impl Clone for CubeSet {
    fn clone(&self) -> (r: Self)
        ensures
            r.name_view() == self.name_view(),
            cube_faces(r.cube_seq()) == cube_faces(self.cube_seq()),
    {
        proof {
            use_type_invariant(self);
        }
        let mut cubes: Vec<Cube> = Vec::new();
        let mut i: usize = 0;
        while i < self.cubes.len()
            invariant
                i <= self.cubes.len(),
                cubes.len() == i,
                forall|k: int| 0 <= k < i ==> (#[trigger] cubes@[k]).face_seq() == self.cubes@[k].face_seq(),
            decreases self.cubes.len() - i,
        {
            cubes.push(self.cubes[i].clone());
            i += 1;
        }
        assert(cube_faces(cubes@) =~= cube_faces(self.cubes@));
        CubeSet { name: self.name.clone(), cubes }
    }
}

/// The faces of the cubes of the set, cube by cube.
pub open spec fn standard_new_faces() -> Seq<Seq<Seq<char>>> {
    seq![
        seq!["A"@, "E"@, "A"@, "N"@, "E"@, "G"@],
        seq!["A"@, "H"@, "S"@, "P"@, "C"@, "O"@],
        seq!["A"@, "S"@, "P"@, "F"@, "F"@, "K"@],
        seq!["O"@, "B"@, "J"@, "O"@, "A"@, "B"@],
        seq!["I"@, "O"@, "T"@, "M"@, "U"@, "C"@],
        seq!["R"@, "Y"@, "V"@, "D"@, "E"@, "L"@],
        seq!["L"@, "R"@, "E"@, "I"@, "X"@, "D"@],
        seq!["E"@, "I"@, "U"@, "N"@, "E"@, "S"@],
        seq!["W"@, "N"@, "G"@, "E"@, "E"@, "H"@],
        seq!["L"@, "N"@, "H"@, "N"@, "R"@, "Z"@],
        seq!["T"@, "S"@, "T"@, "I"@, "Y"@, "D"@],
        seq!["O"@, "W"@, "T"@, "O"@, "A"@, "T"@],
        seq!["E"@, "R"@, "T"@, "T"@, "Y"@, "L"@],
        seq!["T"@, "O"@, "E"@, "S"@, "S"@, "I"@],
        seq!["T"@, "E"@, "R"@, "W"@, "H"@, "V"@],
        seq!["N"@, "U"@, "I"@, "H"@, "M"@, "Qu"@],
    ]
}

/// The faces of the cubes of the set, cube by cube.
pub open spec fn standard_old_faces() -> Seq<Seq<Seq<char>>> {
    seq![
        seq!["A"@, "A"@, "C"@, "I"@, "O"@, "T"@],
        seq!["A"@, "B"@, "I"@, "L"@, "T"@, "Y"@],
        seq!["A"@, "B"@, "J"@, "M"@, "O"@, "Qu"@],
        seq!["A"@, "C"@, "D"@, "E"@, "M"@, "P"@],
        seq!["A"@, "C"@, "E"@, "L"@, "R"@, "S"@],
        seq!["A"@, "D"@, "E"@, "N"@, "V"@, "Z"@],
        seq!["A"@, "H"@, "M"@, "O"@, "R"@, "S"@],
        seq!["B"@, "I"@, "F"@, "O"@, "R"@, "X"@],
        seq!["D"@, "E"@, "N"@, "O"@, "S"@, "W"@],
        seq!["D"@, "K"@, "N"@, "O"@, "T"@, "U"@],
        seq!["E"@, "E"@, "F"@, "H"@, "I"@, "Y"@],
        seq!["E"@, "G"@, "K"@, "L"@, "U"@, "Y"@],
        seq!["E"@, "G"@, "I"@, "N"@, "T"@, "V"@],
        seq!["E"@, "H"@, "I"@, "N"@, "P"@, "S"@],
        seq!["E"@, "L"@, "P"@, "S"@, "T"@, "U"@],
        seq!["G"@, "I"@, "L"@, "R"@, "U"@, "W"@],
    ]
}

/// The faces of the cubes of the set, cube by cube.
pub open spec fn big_faces() -> Seq<Seq<Seq<char>>> {
    seq![
        seq!["A"@, "A"@, "A"@, "F"@, "R"@, "S"@],
        seq!["A"@, "A"@, "E"@, "E"@, "E"@, "E"@],
        seq!["A"@, "A"@, "F"@, "I"@, "R"@, "S"@],
        seq!["A"@, "D"@, "E"@, "N"@, "N"@, "N"@],
        seq!["A"@, "E"@, "E"@, "E"@, "E"@, "M"@],
        seq!["A"@, "E"@, "E"@, "G"@, "M"@, "U"@],
        seq!["A"@, "E"@, "G"@, "M"@, "N"@, "N"@],
        seq!["A"@, "F"@, "I"@, "R"@, "S"@, "Y"@],
        seq!["B"@, "J"@, "K"@, "Q"@, "X"@, "Z"@],
        seq!["C"@, "C"@, "E"@, "N"@, "S"@, "T"@],
        seq!["C"@, "E"@, "I"@, "I"@, "L"@, "T"@],
        seq!["C"@, "E"@, "I"@, "L"@, "P"@, "T"@],
        seq!["C"@, "E"@, "I"@, "P"@, "S"@, "T"@],
        seq!["D"@, "D"@, "H"@, "N"@, "O"@, "T"@],
        seq!["D"@, "H"@, "H"@, "L"@, "O"@, "R"@],
        seq!["D"@, "H"@, "L"@, "N"@, "O"@, "R"@],
        seq!["D"@, "H"@, "L"@, "N"@, "O"@, "R"@],
        seq!["E"@, "I"@, "I"@, "I"@, "T"@, "T"@],
        seq!["E"@, "M"@, "O"@, "T"@, "T"@, "T"@],
        seq!["E"@, "N"@, "S"@, "S"@, "S"@, "U"@],
        seq!["F"@, "I"@, "P"@, "R"@, "S"@, "Y"@],
        seq!["G"@, "O"@, "R"@, "R"@, "V"@, "W"@],
        seq!["I"@, "P"@, "R"@, "R"@, "R"@, "Y"@],
        seq!["N"@, "O"@, "O"@, "T"@, "U"@, "W"@],
        seq!["O"@, "O"@, "O"@, "T"@, "T"@, "U"@],
    ]
}

} // verus!
