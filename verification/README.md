# sched_gym

Schedulers for equality saturation with egg that rank rewrite matches by
their *detour cost*: the context cost of the e-class where a match was found
plus the cost of the instantiated pattern. The context cost of an e-class is
the cost of the cheapest walk from a root down to it, where each step from an
e-class through one of its e-nodes to a child adds the cost of that e-node
(its operator cost plus the best costs of its children) less the best cost of
the child.

`src/` is the verified library (Verus):

- `cost`: the additive cost function and the cost of an instantiated pattern;
- `min_prio_queue`: a priority queue that hands out the entry of least key;
- `ctxt_cost`: which e-classes a root reaches, and the context cost of every
  e-class, as the cheapest walk from a root, with its laws;
- `order`: insertion into a sorted candidate list and stable sorting by cost;
- `backoff`: the per-rule ban bookkeeping of the backoff search;
- `detour`: detour costs, the e-classes to search, the candidate list of the
  shortcut scheduler and the budget of applications;
- `limits`: the time and node limits of a run.

`app/` runs the schedulers on egg's `Runner`: it reads the e-graph into the
library's plain values, performs the searches and applications that egg
makes, and hands the decisions to the library.
