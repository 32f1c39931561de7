//! What holds of every loaded assembly.
use vstd::prelude::*;

use crate::metadata::class::ClassInfo;
use crate::metadata::image::{AssemblyRefTable, Image, MemberRefTable, Table, TypeRefTable};
use crate::metadata::signature::{ElementType, MethodSignature, Type};

verus! {

/// Whether `row` is the row that the token of `table` and `entry` names: the
/// entries of a table are counted from one.
pub open spec fn names(image: Image, table: usize, entry: usize, row: Table) -> bool {
    &&& table < image.tables.len()
    &&& 1 <= entry <= image.tables[table as int].len()
    &&& image.tables[table as int][entry - 1] == row
}

/// Whether the name at `index` is `text`.
pub open spec fn is_called(image: Image, index: u32, text: Seq<char>) -> bool {
    image.strings@.contains_key(index) && image.strings@[index]@ == text
}

/// Whether `mrt` refers to a method of a class of another assembly.
pub open spec fn refers_to(
    image: Image,
    mrt: MemberRefTable,
    trt: TypeRefTable,
    art: AssemblyRefTable,
) -> bool {
    &&& names(image, mrt.class.table, mrt.class.entry, Table::TypeRef(trt))
    &&& names(
        image,
        trt.resolution_scope.table,
        trt.resolution_scope.entry,
        Table::AssemblyRef(art),
    )
    &&& image.strings@.contains_key(art.name)
    &&& image.strings@.contains_key(trt.namespace)
    &&& image.strings@.contains_key(trt.name)
    &&& image.strings@.contains_key(mrt.name)
    &&& image.signatures@.contains_key(mrt.signature)
}

/// Whether the method that `mrt` refers to is `System.Console.WriteLine` of
/// `mscorlib`.
pub open spec fn writes_line(
    image: Image,
    mrt: MemberRefTable,
    trt: TypeRefTable,
    art: AssemblyRefTable,
) -> bool {
    &&& is_called(image, art.name, "mscorlib"@)
    &&& is_called(image, trt.namespace, "System"@)
    &&& is_called(image, trt.name, "Console"@)
    &&& is_called(image, mrt.name, "WriteLine"@)
}

/// Whether a method takes one value of this kind and returns nothing.
pub open spec fn takes_one(signature: MethodSignature, kind: ElementType) -> bool {
    &&& signature.ret.base == ElementType::Void
    &&& signature.params.len() == 1
    &&& signature.params[0].base == kind
}

/// A token that names a row finds it. One with an entry of zero, or behind the
/// last, finds none.
pub proof fn law_rows_are_found(image: Image, table: usize, entry: usize, row: Table)
    ensures
        names(image, table, entry, row) <==> image.row_spec(table, entry) == Some(row),
        entry == 0 ==> image.row_spec(table, entry) is None,
        table < image.tables.len() && entry > image.tables[table as int].len()
            ==> image.row_spec(table, entry) is None,
{
}

/// A call of `System.Console.WriteLine` writes its argument if that is a string or
/// an integer, and drops it if it is anything else. A call of any other method of
/// another assembly does nothing.
pub proof fn law_console_is_found(
    image: Image,
    mrt: MemberRefTable,
    trt: TypeRefTable,
    art: AssemblyRefTable,
)
    requires
        refers_to(image, mrt, trt, art),
    ensures
        ({
            let signature = image.signatures@[mrt.signature];
            let call = image.external_call_spec(mrt);
            &&& call is Ok
            &&& call->Ok_0 is Ignored <==> !writes_line(image, mrt, trt, art)
            &&& call->Ok_0 is WriteText <==> writes_line(image, mrt, trt, art) && takes_one(
                signature,
                ElementType::String,
            )
            &&& call->Ok_0 is WriteInt <==> writes_line(image, mrt, trt, art) && takes_one(
                signature,
                ElementType::I4,
            )
        }),
{
    let signature = image.signatures@[mrt.signature];
    assert(signature.params@.len() == 1 ==> (signature.params[0].base == ElementType::String <==> (
    forall|i: int|
        0 <= i < 1 ==> (#[trigger] signature.params[i]).base == seq![ElementType::String][i])));
    assert(signature.params@.len() == 1 ==> (signature.params[0].base == ElementType::I4 <==> (
    forall|i: int|
        0 <= i < 1 ==> (#[trigger] signature.params[i]).base == seq![ElementType::I4][i])));
}

/// A field is found by its name: the first of that name, and none if there is none.
pub proof fn law_first_field_is_found(class: ClassInfo, name: Seq<char>, i: int)
    ensures
        class.field_index(name) == Some(i) <==> {
            &&& 0 <= i < class.fields.len()
            &&& class.fields[i].name@ == name
            &&& forall|k: int| 0 <= k < i ==> (#[trigger] class.fields[k]).name@ != name
        },
        class.field_index(name) is None <==> forall|k: int|
            0 <= k < class.fields.len() ==> (#[trigger] class.fields[k]).name@ != name,
{
    lemma_first_field(class, name, 0);
    if exists|c: int| class.is_field(name, c) {
        let c = choose|c: int| class.is_field(name, c);
        assert(class.fields[c].name@ == name);
        if class.is_field(name, i) {
            assert(c == i) by {
                if c < i {
                    assert(class.fields[c].name@ != name);
                } else if i < c {
                    assert(class.fields[i].name@ != name);
                }
            }
        }
    }
}

/// If a field has the name, there is a first one.
proof fn lemma_first_field(class: ClassInfo, name: Seq<char>, n: int)
    requires
        0 <= n <= class.fields.len(),
        forall|k: int| 0 <= k < n ==> (#[trigger] class.fields[k]).name@ != name,
    ensures
        (exists|c: int| class.is_field(name, c)) || forall|k: int|
            0 <= k < class.fields.len() ==> (#[trigger] class.fields[k]).name@ != name,
    decreases class.fields.len() - n,
{
    if n < class.fields.len() {
        if class.fields[n].name@ == name {
            assert(class.is_field(name, n));
        } else {
            lemma_first_field(class, name, n + 1);
        }
    }
}

/// A class type tells which class it is, and no other type does.
pub proof fn law_class_types_name_their_class(ty: Type, class: usize)
    ensures
        ty.class_spec() == Some(class) <==> ty.base == ElementType::Class(class),
        ty.class_spec() is None <==> !(ty.base is Class),
{
}

/// A method of another assembly is found only if the rows of its class and of the
/// assembly, their names, its own, and its signature are there.
pub proof fn law_other_methods_need_rows(image: Image, mrt: MemberRefTable)
    ensures
        image.external_call_spec(mrt) is Ok <==> exists|trt: TypeRefTable, art: AssemblyRefTable|
            refers_to(image, mrt, trt, art),
{
    if image.external_call_spec(mrt) is Ok {
        let trt = image.row_spec(mrt.class.table, mrt.class.entry).unwrap()->TypeRef_0;
        let art = image.row_spec(
            trt.resolution_scope.table,
            trt.resolution_scope.entry,
        ).unwrap()->AssemblyRef_0;
        assert(refers_to(image, mrt, trt, art));
    }
    if exists|trt: TypeRefTable, art: AssemblyRefTable| refers_to(image, mrt, trt, art) {
        let (trt, art): (TypeRefTable, AssemblyRefTable) = choose|
            trt: TypeRefTable,
            art: AssemblyRefTable,
        | refers_to(image, mrt, trt, art);
        law_console_is_found(image, mrt, trt, art);
    }
}

} // verus!
