# yacht

An execution engine for CIL, the instruction set of ECMA-335, with its logic
verified by [Verus](https://github.com/verus-lang/verus).

* `src/` is the library. Every function has a contract, and Verus proves it, but
  for four small functions whose contracts are taken on trust: those of
  `exec::jit::fx`, which call `FxHashMap`, and the one of `exec::text` that has
  the standard library decode UTF-16.
  * `metadata` holds what a loaded assembly tells the engine: the rows of its
    tables, its strings, signatures, classes and method bodies.
  * `exec::interpret` is the interpreter; `exec::interpret_laws` says what holds
    of every run.
  * `exec::jit` is the compiler.
    * `cfg` cuts a method body into basic blocks; `cfg_laws` says what holds of
      them.
    * `types` gives CIL types their LLVM types; `types_laws` says what holds of
      them.
    * `module` describes an LLVM module by plain values.
    * `state` is what the compiler keeps, `model` says what compiling does to it,
      and `compiler` does it.
    * `sound` and `growth` show that every part of compiling only adds to the
      module and keeps it sound. `compiler_laws`, `phi_laws`, `terminator_laws`
      and `function_laws` say what holds of every program. `agreement` says that
      an instruction that the interpreter executes does the same when compiled, if
      it neither branches, nor returns, nor calls a method of the assembly, and
      that the branch `Bge` leads to the same place.
* `tests/` runs the library.
* `app/` is the program: it reads its arguments, hands the compiled module to
  LLVM and runs it. The reader of assembly files is linked to it under the name
  `yacht_load_assembly`.
