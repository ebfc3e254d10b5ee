# raana_opt

Optimisation passes over a small SSA representation, written and proved in Verus.

A `Program` (`src/program.rs`) holds instructions, basic blocks with parameters, functions and globals in one
arena; handles (`Inst`, `BasicBlock`, `Function`) index it, and a handle that names nothing reads as an absent
entry. Contracts speak of its view `ProgramV` (`src/ir.rs`). A pass is a unit struct with a `run` method (some
also have `run_on` for one function) that rewrites the program and tells whether anything changed:

| module | pass |
| --- | --- |
| `boolean_simplify` | `BooleanSimplification` |
| `chain_to_switch` | `ChainToSwitch` |
| `if_conversion` | `IfConversion` |
| `dce` | `DeadCodeElimination`, `DeadPhiElimination`, `UnreachableBasicBlock`, `DeadFunctionElimination` |
| `dse` | `DSE` |
| `const_prop` | `SparseConditionConstantPropagation` |
| `ipsccp` | `IPSCCP` |
| `guard_elimination` | `GuardElimination` |
| `gvn`, `gvn_pre` | `GlobalInstNumbering`, `GVNPRE` |
| `inline` | `Inline` |
| `blocked_reduction` | `BlockedReduction` |
| `invariant_reduction_hoisting` | `InvariantReductionHoisting` |
| `column_major` | `ColumnMajor` |

The contract of a pass says which program comes out, by a spec function that builds it. What such a program
keeps is stated as public proof functions: those about one pass alone stand in its module, the longer ones in
modules of their own:

| of | modules |
| --- | --- |
| values and control flow in general | `values`, `deciding`, `placing`, `landing`, `copying`, `reports` |
| constants | `propagation`, `fixpoint`, `traces`, `noting`, `memory_reads`, `running` |
| value numbers and leaders | `keying`, `scoping`, `walking`, `quieting`, `leading` |
| joins and merges | `joining`, `merging`, `visibility` |
| calls made inline | `inlining` |
| loops and matrices | `laning`, `accumulating`, `repeating`, `transposing`, `bounding` |
| dead stores and dead code | `storing`, `replaying`, `sweeping` |

The only code that is trusted is in `src/table.rs`: four calls into the hash tables of `rustc_hash`, and the
declaration of its hasher.

`tests/` holds the tests of the passes, of their parts (`parts.rs`), and runs of generated programs before and
after each pass (`differential.rs`).
